//! Building the next LTX file from the WAL and the database.

use crate::ltx::checksum::Checksum;
use crate::ltx::decoder::{FileView, file_of};
use crate::ltx::encoder::{
    Encoder, EncoderStage, PageRec, encode_page_result, file_bytes, file_trailer, frames_decode,
    last_pgno, page_admission, page_rec,
};
use crate::ltx::error::LtxError;
use crate::ltx::format::{Header, header_validity, lock_page, lock_pgno, valid_page_size};
use crate::ltx::roundtrip::{lemma_file_round_trip, page_views};
use crate::storage::PutOutcome;
use crate::sync::error::SyncError;
use crate::sync::position::{Position, SyncOutcome, no_checksum_header, plan_of, sync_header};
use crate::wal::error::WalError;
use crate::wal::format::{
    WAL_FRAME_HEADER_SIZE, WAL_HEADER_SIZE, WalFrameHeader, WalHeader, frame_header_of,
    wal_header_of,
};
use crate::wal::reader::{
    FrameView, PageMap, WalReader, aligned, committed, committed_end, committed_pages, final_commit,
    frame_size, frames_from, lemma_committed_bound, lemma_committed_pages, seed_at,
};
use std::collections::HashMap;
use vstd::prelude::*;
use vstd::slice::slice_subrange;

verus! {

broadcast use vstd::std_specs::hash::group_hash_axioms;

/// An encoded LTX file, ready to be made durable and uploaded, along with the
/// position to commit once the upload succeeds.
#[derive(Debug)]
pub struct StagedFile {
    pub outcome: SyncOutcome,
    pub level: u32,
    pub min_txid: u64,
    pub max_txid: u64,
    /// The bytes of the file, but for those that were taken while it was built.
    pub bytes: Vec<u8>,
    pub new_pos: Position,
}

/// The position after an attempt to upload the staged file `f`: `stored` tells what
/// became of it, or `None` where it failed. The position advances only where the
/// replica now holds the file; otherwise the same file is due again.
pub open spec fn settled_position(pos: Position, f: StagedFile, stored: Option<PutOutcome>) -> Position {
    match stored {
        Some(PutOutcome::Created) => f.new_pos,
        Some(PutOutcome::AlreadyIdentical) => f.new_pos,
        Some(PutOutcome::Conflict) => pos,
        None => pos,
    }
}

/// Settles an attempt to upload a staged file: see [`settled_position`].
pub fn settle_upload(pos: Position, f: &StagedFile, stored: Option<PutOutcome>) -> (p: Position)
    ensures
        p == settled_position(pos, *f, stored),
{
    match stored {
        Some(PutOutcome::Created) => f.new_pos,
        Some(PutOutcome::AlreadyIdentical) => f.new_pos,
        Some(PutOutcome::Conflict) => pos,
        None => pos,
    }
}

/// A failed or refused upload is retried from the same point: the position stays,
/// and so does what is planned from it.
pub proof fn lemma_refused_upload_is_retried(
    pos: Position,
    f: StagedFile,
    stored: Option<PutOutcome>,
    wal_len: u64,
    header: Option<WalHeader>,
)
    requires
        stored is None || stored == Some(PutOutcome::Conflict),
    ensures
        settled_position(pos, f, stored) == pos,
        plan_of(settled_position(pos, f, stored), wal_len, header) == plan_of(pos, wal_len, header),
{
}

/// The numbers of the pages in `dom` from 0 to `n`, ascending.
pub open spec fn ascending_keys(dom: Set<u32>, n: int) -> Seq<u32>
    decreases n + 1,
{
    if n < 0 {
        Seq::empty()
    } else if dom.contains(n as u32) {
        ascending_keys(dom, n - 1).push(n as u32)
    } else {
        ascending_keys(dom, n - 1)
    }
}

proof fn lemma_ascending_keys(s: Seq<u32>, dom: Set<u32>, n: int)
    requires
        -1 <= n <= u32::MAX,
        forall|i: int, j: int| 0 <= i < j < s.len() ==> s[i] < s[j],
        forall|k: u32| #[trigger] s.contains(k) <==> dom.contains(k) && k <= n,
    ensures
        s == ascending_keys(dom, n),
    decreases n + 1,
{
    if n < 0 {
        if s.len() > 0 {
            assert(s.contains(s[0]));
        }
        assert(s =~= Seq::empty());
    } else if dom.contains(n as u32) {
        assert(s.contains(n as u32));
        let i = choose|i: int| 0 <= i < s.len() && s[i] == n as u32;
        if i < s.len() - 1 {
            assert(s.contains(s[s.len() - 1]));
        }
        let front = s.drop_last();
        assert forall|k: u32| #[trigger] front.contains(k) <==> dom.contains(k) && k <= n - 1 by {
            if front.contains(k) {
                let j = choose|j: int| 0 <= j < front.len() && front[j] == k;
                assert(s[j] == k);
                assert(s.contains(k));
                assert(s[j] < s[s.len() - 1]);
            }
            if dom.contains(k) && k <= n - 1 {
                assert(s.contains(k));
                let j = choose|j: int| 0 <= j < s.len() && s[j] == k;
                assert(front[j] == k);
            }
        }
        lemma_ascending_keys(front, dom, n - 1);
        assert(s =~= front.push(n as u32));
    } else {
        assert forall|k: u32| #[trigger] s.contains(k) <==> dom.contains(k) && k <= n - 1 by {}
        lemma_ascending_keys(s, dom, n - 1);
    }
}

/// Sorts with `<[u32]>::sort_unstable`. Trusted: the same numbers come out, each
/// as often as before, in ascending order.
#[verifier::external_body]
fn sort_pages(v: &mut Vec<u32>)
    ensures
        final(v)@.to_multiset() == old(v)@.to_multiset(),
        forall|i: int, j: int| 0 <= i <= j < final(v)@.len() ==> final(v)@[i] <= final(v)@[j],
{
    v.sort_unstable();
}

/// The page numbers of a page map, ascending.
pub fn sorted_pages(m: &HashMap<u32, u64>, max: u32) -> (v: Vec<u32>)
    requires
        forall|k: u32| #[trigger] m@.dom().contains(k) ==> k <= max,
    ensures
        v@ == ascending_keys(m@.dom(), max as int),
        v@.len() == 0 <==> m@.dom() == Set::<u32>::empty(),
        forall|i: int| 0 <= i < v@.len() ==> m@.dom().contains(#[trigger] v@[i]),
        forall|i: int, j: int| 0 <= i < j < v@.len() ==> v@[i] < v@[j],
{
    broadcast use vstd::std_specs::hash::axiom_spec_keys_iter;

    let mut v: Vec<u32> = Vec::new();
    let ghost ks = vstd::std_specs::iter::IteratorSpec::remaining(
        &vstd::std_specs::hash::spec_keys_iter(m),
    ).unref();
    for k in it: m.keys()
        invariant
            it.seq().unref() == ks,
            v@ == ks.take(it.index() as int),
    {
        v.push(*k);
        assert(v@ =~= ks.take(it.index() + 1));
    }
    proof {
        assert(ks.take(ks.len() as int) =~= ks);
        assert(v@ == ks);
        assert(ks.no_duplicates()) by {
            let r = vstd::std_specs::iter::IteratorSpec::remaining(
                &vstd::std_specs::hash::spec_keys_iter(m),
            );
            assert forall|i: int, j: int| 0 <= i < ks.len() && 0 <= j < ks.len() && i != j implies ks[i]
                != ks[j] by {
                assert(r[i] != r[j]);
            }
        }
    }
    sort_pages(&mut v);
    proof {
        lemma_same_elements(ks, v@);
        assert forall|i: int, j: int| 0 <= i < j < v@.len() implies v@[i] < v@[j] by {
            assert(v@[i] != v@[j]);
        }
        assert forall|k: u32| #[trigger] v@.contains(k) <==> m@.dom().contains(k) && k <= max by {
            assert(ks.to_set().contains(k) <==> ks.contains(k));
        }
        lemma_ascending_keys(v@, m@.dom(), max as int);
        assert forall|i: int| 0 <= i < v@.len() implies m@.dom().contains(#[trigger] v@[i]) by {
            assert(v@.contains(v@[i]));
        }
        if v@.len() > 0 {
            assert(m@.dom().contains(v@[0]));
        } else {
            assert forall|k: u32| !m@.dom().contains(k) by {
                assert(!v@.contains(k));
            }
            assert(m@.dom() =~= Set::empty());
        }
    }
    v
}

proof fn lemma_same_elements(a: Seq<u32>, b: Seq<u32>)
    requires
        a.to_multiset() == b.to_multiset(),
        a.no_duplicates(),
    ensures
        b.no_duplicates(),
        forall|k: u32| #[trigger] b.contains(k) <==> a.contains(k),
{
    a.lemma_multiset_has_no_duplicates();
    b.lemma_multiset_has_no_duplicates_conv();
    assert forall|k: u32| #[trigger] b.contains(k) <==> a.contains(k) by {
        vstd::seq_lib::to_multiset_contains(a, k);
        vstd::seq_lib::to_multiset_contains(b, k);
    }
}

/// What a staged file holds.
#[verifier::ext_equal]
pub struct StagedView {
    pub outcome: SyncOutcome,
    pub header: Header,
    pub pages: Seq<PageRec>,
    pub new_pos: Position,
}

/// `f` is the staged file `v`: a level-0 file of one TXID whose bytes, after those
/// that were taken before, read back as the header and the pages.
pub open spec fn is_staged(f: StagedFile, v: StagedView, taken: Seq<u8>) -> bool {
    &&& f.outcome == v.outcome
    &&& f.level == 0
    &&& f.min_txid == v.header.min_txid
    &&& f.max_txid == v.header.max_txid
    &&& f.new_pos == v.new_pos
    &&& taken + f.bytes@ == file_bytes(v.header, v.pages, Checksum(0))
    &&& file_of(taken + f.bytes@) == Ok::<FileView, LtxError>(
        FileView {
            header: v.header,
            pages: page_views(v.pages),
            trailer: file_trailer(v.header, v.pages, Checksum(0)),
        },
    )
}

/// The checksum state before the frame at `offset`: that of the header at the
/// first frame, else that of the frame header `prev` before it.
pub open spec fn seed_of(h: WalHeader, offset: u64, prev: Seq<u8>) -> Result<(u32, u32), SyncError> {
    if offset <= WAL_HEADER_SIZE {
        Ok((h.checksum1, h.checksum2))
    } else {
        let ph = frame_header_of(prev);
        if ph.salt1 != h.salt1 || ph.salt2 != h.salt2 {
            Err(SyncError::Wal(WalError::PrevFrameMismatch))
        } else {
            Ok((ph.checksum1, ph.checksum2))
        }
    }
}

/// The page data of the frame at `offset` of a WAL whose bytes from `base` on
/// are `tail`.
pub open spec fn frame_data(tail: Seq<u8>, base: u64, page_size: u32, offset: u64) -> Seq<u8> {
    tail.subrange(offset - base + 24, offset - base + frame_size(page_size))
}

/// The pages of an incremental file: the newest committed frame of each of the
/// first `n` pages `keys`.
pub open spec fn changed_pages(
    h: Header,
    tail: Seq<u8>,
    base: u64,
    wal_page_size: u32,
    map: Map<u32, u64>,
    keys: Seq<u32>,
    n: nat,
) -> Result<Seq<PageRec>, LtxError>
    decreases n,
{
    if n == 0 {
        Ok(Seq::empty())
    } else {
        match changed_pages(h, tail, base, wal_page_size, map, keys, (n - 1) as nat) {
            Err(e) => Err(e),
            Ok(ps) => {
                let pgno = keys[n - 1];
                let d = frame_data(tail, base, wal_page_size, map[pgno]);
                match encode_page_result(h, last_pgno(ps), pgno, d) {
                    Err(e) => Err(e),
                    Ok(()) => Ok(ps.push(page_rec(pgno, d))),
                }
            },
        }
    }
}

/// What building an incremental file gives: nothing where the tail holds no
/// committed page.
pub open spec fn incremental_of(
    pos: Position,
    page_size: u32,
    offset: u64,
    salt1: u32,
    salt2: u32,
    wal_len: u64,
    wal: WalHeader,
    prev: Seq<u8>,
    tail: Seq<u8>,
    timestamp: i64,
) -> Result<Option<StagedView>, SyncError> {
    match seed_of(wal, offset, prev) {
        Err(e) => Err(e),
        Ok(seed) => if !aligned(wal.page_size, offset) {
            Err(SyncError::Wal(WalError::UnalignedOffset(offset)))
        } else {
            let fs = frames_from(tail, wal, offset as int, 0, seed);
            let map = committed_pages(fs);
            let end = committed_end(fs, wal.page_size) as u64;
            let txid = (pos.txid + 1) as u64;
            let h = sync_header(
                page_size,
                final_commit(fs),
                txid,
                offset,
                (end - offset) as u64,
                salt1,
                salt2,
                timestamp,
            );
            let keys = ascending_keys(map.dom(), final_commit(fs) as int);
            if keys.len() == 0 {
                Ok(None)
            } else if header_validity(h) is Err {
                Err(SyncError::Ltx(header_validity(h)->Err_0))
            } else {
                match changed_pages(h, tail, offset, wal.page_size, map, keys, keys.len()) {
                    Err(e) => Err(SyncError::Ltx(e)),
                    Ok(ps) => Ok(
                        Some(
                            StagedView {
                                outcome: SyncOutcome::Incremental {
                                    txid,
                                    pages: keys.len() as usize,
                                },
                                header: h,
                                pages: ps,
                                new_pos: Position {
                                    txid,
                                    wal_offset: end,
                                    salt1,
                                    salt2,
                                    synced_to_wal_end: end >= wal_len,
                                },
                            },
                        ),
                    ),
                }
            }
        },
    }
}

proof fn lemma_changed_error(
    h: Header,
    tail: Seq<u8>,
    base: u64,
    wal_page_size: u32,
    map: Map<u32, u64>,
    keys: Seq<u32>,
    i: nat,
    n: nat,
)
    requires
        i <= n,
        changed_pages(h, tail, base, wal_page_size, map, keys, i) is Err,
    ensures
        changed_pages(h, tail, base, wal_page_size, map, keys, n) == changed_pages(
            h,
            tail,
            base,
            wal_page_size,
            map,
            keys,
            i,
        ),
    decreases n - i,
{
    if i < n {
        lemma_changed_error(h, tail, base, wal_page_size, map, keys, i, (n - 1) as nat);
    }
}

/// Finishes a file and wraps it up.
fn seal(enc: Encoder, outcome: SyncOutcome, new_pos: Position, header: Header) -> (f: StagedFile)
    requires
        enc.wf(),
        enc.spec_stage() == EncoderStage::Page,
        enc.spec_header() == Some(header),
        enc.post_apply() == Checksum(0),
        frames_decode(enc.pages()),
    ensures
        is_staged(f, StagedView { outcome, header, pages: enc.pages(), new_pos }, enc.taken()),
{
    let mut enc = enc;
    let ghost pages = enc.pages();
    let _ = enc.finish();
    proof {
        enc.lemma_pages_admissible();
        enc.lemma_output_fits();
    }
    let bytes = enc.into_inner();
    proof {
        lemma_file_round_trip(header, pages, Checksum(0));
    }
    StagedFile {
        outcome,
        level: 0,
        min_txid: header.min_txid,
        max_txid: header.max_txid,
        bytes,
        new_pos,
    }
}

/// Every page of the map lies within the bytes that were read.
proof fn lemma_map_in_range(r: WalReader, fs: Seq<FrameView>, pgno: u32)
    requires
        r.wf(),
        fs == r.ahead(),
        committed_pages(fs).dom().contains(pgno),
    ensures
        pgno <= final_commit(fs),
        r.base() <= committed_pages(fs)[pgno],
        committed_pages(fs)[pgno] + frame_size(r.spec_header().page_size) <= r.base()
            + r.bytes().len(),
{
    lemma_committed_pages(fs, pgno);
    lemma_committed_bound(fs);
    let i = choose|i: int|
        0 <= i < committed(fs) && (#[trigger] fs[i]).pgno == pgno && fs[i].offset
            == committed_pages(fs)[pgno] && forall|j: int|
            i < j < committed(fs) ==> (#[trigger] fs[j]).pgno != pgno;
    r.lemma_ahead_in_range(i);
}

/// Builds an incremental file from the new frames of the WAL: `tail` holds its
/// bytes from `offset` on, and `prev` the header of the frame that ends at
/// `offset`, where there is one. Returns `None` where no page was committed.
pub fn build_incremental(
    pos: &Position,
    page_size: u32,
    offset: u64,
    salt1: u32,
    salt2: u32,
    wal_len: u64,
    wal: WalHeader,
    prev: &[u8],
    tail: &[u8],
    timestamp: i64,
) -> (r: Result<Option<StagedFile>, SyncError>)
    requires
        pos.txid < u64::MAX,
        valid_page_size(wal.page_size),
        offset + tail@.len() <= u64::MAX,
        offset > WAL_HEADER_SIZE ==> prev@.len() >= WAL_FRAME_HEADER_SIZE,
    ensures
        match (
            r,
            incremental_of(
                *pos,
                page_size,
                offset,
                salt1,
                salt2,
                wal_len,
                wal,
                prev@,
                tail@,
                timestamp,
            ),
        ) {
            (Ok(None), Ok(None)) => true,
            (Ok(Some(f)), Ok(Some(v))) => is_staged(f, v, Seq::empty()) && f.bytes@ == file_bytes(
                v.header,
                v.pages,
                Checksum(0),
            ),
            (Err(e), Err(se)) => e == se,
            _ => false,
        },
{
    let seed: (u32, u32) = if offset <= WAL_HEADER_SIZE as u64 {
        (wal.checksum1, wal.checksum2)
    } else {
        let ph = WalFrameHeader::parse(prev);
        if ph.salt1 != wal.salt1 || ph.salt2 != wal.salt2 {
            return Err(SyncError::Wal(WalError::PrevFrameMismatch));
        }
        (ph.checksum1, ph.checksum2)
    };
    let mut reader = match WalReader::from_tail(wal, tail, offset, seed) {
        Ok(w) => w,
        Err(e) => return Err(SyncError::Wal(e)),
    };
    let ghost start = reader;
    let ghost fs = reader.ahead();
    let page_map = reader.page_map();
    let ghost map = page_map.pages@;
    proof {
        assert forall|k: u32| #[trigger] map.dom().contains(k) implies k <= page_map.commit by {
            lemma_map_in_range(start, fs, k);
        }
    }
    let pgnos = sorted_pages(&page_map.pages, page_map.commit);
    if pgnos.len() == 0 {
        return Ok(None);
    }
    proof {
        lemma_map_in_range(start, fs, pgnos@[0]);
        assert(page_map.end_offset >= offset) by {
            assert(map.dom().contains(pgnos@[0]));
            assert(map[pgnos@[0]] + frame_size(wal.page_size) <= page_map.end_offset);
        }
    }
    let wal_size: u64 = page_map.end_offset - offset;
    let commit: u32 = page_map.commit;
    let txid: u64 = pos.txid + 1;
    let header = no_checksum_header(
        page_size,
        commit,
        txid,
        offset,
        wal_size,
        salt1,
        salt2,
        timestamp,
    );
    let mut enc = Encoder::new();
    match enc.encode_header(header) {
        Ok(()) => {},
        Err(e) => return Err(SyncError::Ltx(e)),
    }
    let ghost keys = pgnos@;
    let mut i: usize = 0;
    while i < pgnos.len()
        invariant
            i <= pgnos@.len(),
            keys == pgnos@,
            keys == ascending_keys(map.dom(), commit as int),
            map == page_map.pages@,
            map == committed_pages(fs),
            commit == final_commit(fs),
            start.wf(),
            fs == start.ahead(),
            start.bytes() == tail@,
            start.base() == offset,
            start.spec_header() == wal,
            reader.wf(),
            reader.bytes() == tail@,
            reader.base() == offset,
            reader.spec_header() == wal,
            forall|k: int| 0 <= k < keys.len() ==> map.dom().contains(#[trigger] keys[k]),
            enc.wf(),
            enc.spec_stage() == EncoderStage::Page,
            enc.spec_header() == Some(header),
            enc.post_apply() == Checksum(0),
            enc.taken() == Seq::<u8>::empty(),
            frames_decode(enc.pages()),
            changed_pages(header, tail@, offset, wal.page_size, map, keys, i as nat) == Ok::<
                Seq<PageRec>,
                LtxError,
            >(enc.pages()),
            incremental_of(
                *pos,
                page_size,
                offset,
                salt1,
                salt2,
                wal_len,
                wal,
                prev@,
                tail@,
                timestamp,
            ) == (match changed_pages(
                header,
                tail@,
                offset,
                wal.page_size,
                map,
                keys,
                keys.len(),
            ) {
                Err(e) => Err(SyncError::Ltx(e)),
                Ok(ps) => Ok(
                    Some(
                        StagedView {
                            outcome: SyncOutcome::Incremental { txid, pages: keys.len() as usize },
                            header,
                            pages: ps,
                            new_pos: Position {
                                txid,
                                wal_offset: page_map.end_offset,
                                salt1,
                                salt2,
                                synced_to_wal_end: page_map.end_offset >= wal_len,
                            },
                        },
                    ),
                ),
            }),
        decreases pgnos@.len() - i,
    {
        let pgno = pgnos[i];
        assert(map.dom().contains(keys[i as int]));
        proof {
            lemma_map_in_range(start, fs, pgno);
        }
        let off: u64 = *page_map.pages.get(&pgno).unwrap();
        let data = reader.page_data_at(off);
        match enc.encode_page(pgno, data) {
            Ok(()) => {},
            Err(e) => {
                proof {
                    lemma_changed_error(
                        header,
                        tail@,
                        offset,
                        wal.page_size,
                        map,
                        keys,
                        (i + 1) as nat,
                        keys.len(),
                    );
                }
                return Err(SyncError::Ltx(e));
            },
        }
        i += 1;
    }
    let new_pos = Position {
        txid,
        wal_offset: page_map.end_offset,
        salt1,
        salt2,
        synced_to_wal_end: page_map.end_offset >= wal_len,
    };
    let outcome = SyncOutcome::Incremental { txid, pages: pgnos.len() };
    let f = seal(enc, outcome, new_pos, header);
    assert(Seq::<u8>::empty() + f.bytes@ =~= f.bytes@);
    Ok(Some(f))
}

/// What a snapshot is built from: the header of the file, where the WAL holds
/// pages, and the position after it.
#[verifier::ext_equal]
pub struct SnapshotStart {
    pub header: Header,
    pub map: Map<u32, u64>,
    pub new_pos: Position,
}

/// The committed pages, commit size and end offset of the WAL `wal` from
/// `offset` on, and its salts; nothing where it has no header.
pub open spec fn wal_contents(wal: Seq<u8>, offset: u64) -> Result<
    (Map<u32, u64>, u32, u64, u32, u32),
    WalError,
> {
    if wal.len() < WAL_HEADER_SIZE {
        Ok((Map::empty(), 0, 0, 0, 0))
    } else {
        match wal_header_of(wal) {
            Err(e) => Err(e),
            Ok(h) => match seed_at(wal, h, offset) {
                Err(e) => Err(e),
                Ok(seed) => {
                    let fs = frames_from(wal, h, 0, offset as int, seed);
                    Ok(
                        (
                            committed_pages(fs),
                            final_commit(fs),
                            committed_end(fs, h.page_size) as u64,
                            h.salt1,
                            h.salt2,
                        ),
                    )
                },
            },
        }
    }
}

/// What starting a snapshot gives.
pub open spec fn snapshot_start(
    pos: Position,
    page_size: u32,
    db_len: u64,
    offset: u64,
    wal: Seq<u8>,
    timestamp: i64,
) -> Result<SnapshotStart, SyncError> {
    match wal_contents(wal, offset) {
        Err(e) => Err(SyncError::Wal(e)),
        Ok((map, wal_commit, end, salt1, salt2)) => if wal_commit == 0 && db_len / page_size as u64
            > u32::MAX {
            Err(SyncError::Ltx(LtxError::ImageTooLarge { pages: db_len / page_size as u64 }))
        } else {
            let commit = if wal_commit > 0 {
                wal_commit
            } else {
                (db_len / page_size as u64) as u32
            };
            let wal_size = if end > offset {
                (end - offset) as u64
            } else {
                0
            };
            let txid = (pos.txid + 1) as u64;
            let h = sync_header(
                page_size,
                commit,
                txid,
                offset,
                wal_size,
                salt1,
                salt2,
                timestamp,
            );
            match header_validity(h) {
                Err(e) => Err(SyncError::Ltx(e)),
                Ok(()) => Ok(
                    SnapshotStart {
                        header: h,
                        map,
                        new_pos: Position {
                            txid,
                            wal_offset: (offset + wal_size) as u64,
                            salt1,
                            salt2,
                            synced_to_wal_end: offset + wal_size >= wal.len(),
                        },
                    },
                ),
            }
        },
    }
}

/// The data of page `pgno` of a snapshot: that of its WAL frame where the WAL
/// holds the page, else that of the database.
pub open spec fn snapshot_data(
    s: SnapshotStart,
    wal: Seq<u8>,
    supplied: Map<u32, Seq<u8>>,
    pgno: u32,
) -> Seq<u8> {
    if s.map.dom().contains(pgno) {
        wal.subrange(s.map[pgno] + 24, s.map[pgno] + 24 + s.header.page_size)
    } else {
        supplied[pgno]
    }
}

/// The pages of a snapshot up to page `n`, without the lock page.
pub open spec fn snapshot_pages(
    s: SnapshotStart,
    wal: Seq<u8>,
    supplied: Map<u32, Seq<u8>>,
    n: nat,
) -> Seq<PageRec>
    decreases n,
{
    if n == 0 {
        Seq::empty()
    } else {
        let before = snapshot_pages(s, wal, supplied, (n - 1) as nat);
        if n == lock_page(s.header.page_size) {
            before
        } else {
            before.push(page_rec(n as u32, snapshot_data(s, wal, supplied, n as u32)))
        }
    }
}

/// Where building a snapshot goes on to from page `n` without the database.
pub enum BuildStep {
    /// All pages are there.
    Done,
    /// This page must come from the database.
    Need(u32),
    /// A page of the WAL could not be encoded.
    Fail(SyncError),
}

/// How building goes on after page `n`: pages of the WAL are taken from there,
/// up to the first page that only the database holds.
pub open spec fn next_step(s: SnapshotStart, wal: Seq<u8>, n: nat) -> BuildStep
    decreases s.header.commit - n,
{
    if n >= s.header.commit {
        BuildStep::Done
    } else {
        let p = (n + 1) as u32;
        if p == lock_page(s.header.page_size) {
            next_step(s, wal, n + 1)
        } else if !s.map.dom().contains(p) {
            BuildStep::Need(p)
        } else {
            let end = s.map[p] + 24 + s.header.page_size;
            if end > wal.len() {
                BuildStep::Fail(
                    SyncError::Ltx(
                        LtxError::ShortBuffer {
                            need: if end > usize::MAX {
                                usize::MAX
                            } else {
                                end as usize
                            },
                            got: wal.len() as usize,
                        },
                    ),
                )
            } else {
                next_step(s, wal, n + 1)
            }
        }
    }
}

/// The page after `cursor` is one that only the database holds.
pub open spec fn awaits_page(s: SnapshotStart, cursor: u32) -> bool {
    &&& cursor < s.header.commit
    &&& cursor + 1 != lock_page(s.header.page_size)
    &&& !s.map.dom().contains((cursor + 1) as u32)
}

proof fn lemma_snapshot_last(s: SnapshotStart, wal: Seq<u8>, supplied: Map<u32, Seq<u8>>, n: nat)
    requires
        n <= u32::MAX,
        valid_page_size(s.header.page_size),
    ensures
        lock_page(s.header.page_size) >= 2,
        last_pgno(snapshot_pages(s, wal, supplied, n)) == (if n == lock_page(s.header.page_size) {
            n - 1
        } else {
            n as int
        }),
{
    let sz = s.header.page_size as int;
    assert(0x4000_0000int / sz >= 1 && 0x4000_0000int / sz <= 0x4000_0000) by (nonlinear_arith)
        requires
            1 <= sz <= 65536,
    ;
    if n > 0 && n == lock_page(s.header.page_size) {
        let m = (n - 1) as nat;
        assert(last_pgno(snapshot_pages(s, wal, supplied, m)) == m);
    }
}

proof fn lemma_snapshot_admits(s: SnapshotStart, wal: Seq<u8>, supplied: Map<u32, Seq<u8>>, n: nat)
    requires
        n < s.header.commit,
        n + 1 != lock_page(s.header.page_size),
        valid_page_size(s.header.page_size),
    ensures
        page_admission(
            s.header,
            last_pgno(snapshot_pages(s, wal, supplied, n)),
            (n + 1) as u32,
            s.header.page_size as nat,
        ) is Ok,
{
    lemma_snapshot_last(s, wal, supplied, n);
}

proof fn lemma_supply_keeps(
    s: SnapshotStart,
    wal: Seq<u8>,
    supplied: Map<u32, Seq<u8>>,
    p: u32,
    d: Seq<u8>,
    n: nat,
)
    requires
        n < p,
    ensures
        snapshot_pages(s, wal, supplied.insert(p, d), n) == snapshot_pages(s, wal, supplied, n),
    decreases n,
{
    if n > 0 {
        lemma_supply_keeps(s, wal, supplied, p, d, (n - 1) as nat);
    }
}

/// A snapshot under construction. Pages that the WAL holds are taken from there;
/// the caller reads the others from the database, one at a time, as
/// [`SnapshotBuild::advance`] asks for them.
pub struct SnapshotBuild<'a> {
    wal: &'a [u8],
    pages: HashMap<u32, u64>,
    header: Header,
    new_pos: Position,
    enc: Encoder,
    /// The pages up to this one are written.
    cursor: u32,
    supplied: Ghost<Map<u32, Seq<u8>>>,
}

impl<'a> SnapshotBuild<'a> {
    /// What the snapshot is built from.
    pub closed spec fn start(&self) -> SnapshotStart {
        SnapshotStart { header: self.header, map: self.pages@, new_pos: self.new_pos }
    }

    /// The WAL that pages are taken from.
    pub closed spec fn wal(&self) -> Seq<u8> {
        self.wal@
    }

    /// The pages up to this one are written.
    pub closed spec fn cursor(&self) -> u32 {
        self.cursor
    }

    /// The pages that came from the database.
    pub closed spec fn supplied(&self) -> Map<u32, Seq<u8>> {
        self.supplied@
    }

    /// The bytes of the file that were taken so far.
    pub closed spec fn taken(&self) -> Seq<u8> {
        self.enc.taken()
    }

    /// The bytes of the file that were written so far.
    pub closed spec fn output(&self) -> Seq<u8> {
        self.enc.output()
    }

    /// What always holds of a snapshot under construction.
    pub closed spec fn wf(&self) -> bool {
        &&& self.enc.wf()
        &&& self.enc.spec_stage() == EncoderStage::Page
        &&& self.enc.spec_header() == Some(self.header)
        &&& self.enc.post_apply() == Checksum(0)
        &&& frames_decode(self.enc.pages())
        &&& valid_page_size(self.header.page_size)
        &&& self.cursor <= self.header.commit
        &&& self.enc.pages() == snapshot_pages(
            self.start(),
            self.wal@,
            self.supplied@,
            self.cursor as nat,
        )
    }

    /// Starts a snapshot at the TXID after `pos` of a database of `db_len` bytes
    /// and its WAL, read from `offset` on.
    pub fn begin(
        pos: &Position,
        page_size: u32,
        db_len: u64,
        offset: u64,
        wal: &'a [u8],
        timestamp: i64,
    ) -> (r: Result<SnapshotBuild<'a>, SyncError>)
        requires
            pos.txid < u64::MAX,
            page_size > 0,
        ensures
            match (r, snapshot_start(*pos, page_size, db_len, offset, wal@, timestamp)) {
                (Ok(b), Ok(s)) => {
                    &&& b.wf()
                    &&& b.start() == s
                    &&& b.wal() == wal@
                    &&& b.cursor() == 0
                    &&& b.supplied() == Map::<u32, Seq<u8>>::empty()
                    &&& b.taken() == Seq::<u8>::empty()
                },
                (Err(e), Err(se)) => e == se,
                _ => false,
            },
    {
        let len: usize = wal.len();
        let (page_map, salt1, salt2): (PageMap, u32, u32) = if len >= WAL_HEADER_SIZE {
            match WalReader::new_at_offset(wal, offset) {
                Err(e) => return Err(SyncError::Wal(e)),
                Ok(reader) => {
                    let mut reader = reader;
                    let h = *reader.header();
                    (reader.page_map(), h.salt1, h.salt2)
                },
            }
        } else {
            (PageMap::default(), 0u32, 0u32)
        };
        let count: u64 = db_len / page_size as u64;
        if page_map.commit == 0 && count > u32::MAX as u64 {
            return Err(SyncError::Ltx(LtxError::ImageTooLarge { pages: count }));
        }
        let commit: u32 = if page_map.commit > 0 {
            page_map.commit
        } else {
            count as u32
        };
        let wal_size: u64 = if page_map.end_offset > offset {
            page_map.end_offset - offset
        } else {
            0
        };
        let txid: u64 = pos.txid + 1;
        let header = no_checksum_header(
            page_size,
            commit,
            txid,
            offset,
            wal_size,
            salt1,
            salt2,
            timestamp,
        );
        let mut enc = Encoder::new();
        match enc.encode_header(header) {
            Ok(()) => {},
            Err(e) => return Err(SyncError::Ltx(e)),
        }
        let new_pos = Position {
            txid,
            wal_offset: offset + wal_size,
            salt1,
            salt2,
            synced_to_wal_end: offset + wal_size >= len as u64,
        };
        Ok(
            SnapshotBuild {
                wal,
                pages: page_map.pages,
                header,
                new_pos,
                enc,
                cursor: 0,
                supplied: Ghost(Map::empty()),
            },
        )
    }

    /// Writes the pages that the WAL holds, up to the first page that must come
    /// from the database. Returns that page, or `None` once all are written.
    pub fn advance(&mut self) -> (r: Result<Option<u32>, SyncError>)
        requires
            old(self).wf(),
        ensures
            final(self).wf(),
            final(self).start() == old(self).start(),
            final(self).wal() == old(self).wal(),
            final(self).supplied() == old(self).supplied(),
            final(self).taken() == old(self).taken(),
            match next_step(old(self).start(), old(self).wal(), old(self).cursor() as nat) {
                BuildStep::Done => r == Ok::<Option<u32>, SyncError>(None) && final(self).cursor()
                    == old(self).start().header.commit,
                BuildStep::Need(p) => r == Ok::<Option<u32>, SyncError>(Some(p))
                    && final(self).cursor() == p - 1 && awaits_page(
                    final(self).start(),
                    final(self).cursor(),
                ),
                BuildStep::Fail(e) => r == Err::<Option<u32>, SyncError>(e),
            },
    {
        let ghost s = self.start();
        let lock = lock_pgno(self.header.page_size);
        let len: usize = self.wal.len();
        let page_size: usize = self.header.page_size as usize;
        while self.cursor < self.header.commit
            invariant
                self.wf(),
                self.start() == s,
                self.wal == old(self).wal,
                self.supplied == old(self).supplied,
                self.enc.taken() == old(self).enc.taken(),
                lock == lock_page(self.header.page_size),
                len == self.wal@.len(),
                page_size == self.header.page_size,
                next_step(s, self.wal@, self.cursor as nat) == next_step(
                    s,
                    old(self).wal@,
                    old(self).cursor as nat,
                ),
                s == old(self).start(),
            decreases self.header.commit - self.cursor,
        {
            let p: u32 = self.cursor + 1;
            if p == lock {
                self.cursor = p;
                continue;
            }
            let off: u64 = match self.pages.get(&p) {
                None => return Ok(Some(p)),
                Some(off) => *off,
            };
            let end: u128 = off as u128 + WAL_FRAME_HEADER_SIZE as u128 + page_size as u128;
            if end > len as u128 {
                let need: usize = if end > usize::MAX as u128 {
                    usize::MAX
                } else {
                    end as usize
                };
                return Err(SyncError::Ltx(LtxError::ShortBuffer { need, got: len }));
            }
            let at: usize = off as usize + WAL_FRAME_HEADER_SIZE;
            let data = slice_subrange(self.wal, at, at + page_size);
            proof {
                lemma_snapshot_admits(s, self.wal@, self.supplied@, self.cursor as nat);
                reveal(encode_page_result);
            }
            match self.enc.encode_page(p, data) {
                Ok(()) => {},
                Err(e) => return Err(SyncError::Ltx(e)),
            }
            self.cursor = p;
        }
        Ok(None)
    }

    /// Writes the page that [`SnapshotBuild::advance`] asked for, as the
    /// database holds it. After an error nothing was written.
    pub fn supply(&mut self, page: &[u8]) -> (r: Result<(), SyncError>)
        requires
            old(self).wf(),
            awaits_page(old(self).start(), old(self).cursor()),
        ensures
            final(self).wf(),
            final(self).start() == old(self).start(),
            final(self).wal() == old(self).wal(),
            final(self).taken() == old(self).taken(),
            if page@.len() != old(self).start().header.page_size {
                r == Err::<(), SyncError>(
                    SyncError::Ltx(
                        LtxError::WrongPageLength {
                            expected: old(self).start().header.page_size,
                            got: page@.len() as usize,
                        },
                    ),
                )
            } else {
                r is Ok
            },
            match r {
                Ok(()) => final(self).cursor() == old(self).cursor() + 1 && final(self).supplied()
                    == old(self).supplied().insert(final(self).cursor(), page@),
                Err(_) => final(self).cursor() == old(self).cursor() && final(self).supplied()
                    == old(self).supplied(),
            },
    {
        let ghost s = self.start();
        let p: u32 = self.cursor + 1;
        proof {
            lemma_snapshot_admits(s, self.wal@, self.supplied@, self.cursor as nat);
            reveal(encode_page_result);
        }
        match self.enc.encode_page(p, page) {
            Ok(()) => {},
            Err(e) => return Err(SyncError::Ltx(e)),
        }
        proof {
            lemma_supply_keeps(s, self.wal@, self.supplied@, p, page@, self.cursor as nat);
        }
        self.supplied = Ghost(self.supplied@.insert(p, page@));
        self.cursor = p;
        Ok(())
    }

    /// Takes out the bytes of the file that were written since the last call, so that
    /// no more than a few pages need to be in memory.
    pub fn take_output(&mut self) -> (b: Vec<u8>)
        requires
            old(self).wf(),
        ensures
            final(self).wf(),
            final(self).start() == old(self).start(),
            final(self).wal() == old(self).wal(),
            final(self).cursor() == old(self).cursor(),
            final(self).supplied() == old(self).supplied(),
            final(self).output() == old(self).output(),
            final(self).taken() == old(self).taken() + b@,
            final(self).taken() == old(self).output(),
    {
        self.enc.take_output()
    }

    /// Finishes the file once all pages are written. It holds what was not taken
    /// before.
    pub fn finish(self) -> (f: StagedFile)
        requires
            self.wf(),
            self.cursor() == self.start().header.commit,
        ensures
            is_staged(
                f,
                StagedView {
                    outcome: SyncOutcome::Snapshot {
                        txid: self.start().header.max_txid,
                        pages: self.start().header.commit,
                    },
                    header: self.start().header,
                    pages: snapshot_pages(
                        self.start(),
                        self.wal(),
                        self.supplied(),
                        self.start().header.commit as nat,
                    ),
                    new_pos: self.start().new_pos,
                },
                self.taken(),
            ),
    {
        let outcome = SyncOutcome::Snapshot {
            txid: self.header.max_txid,
            pages: self.header.commit,
        };
        seal(self.enc, outcome, self.new_pos, self.header)
    }
}

/// The sorted pages are the pages of the map, each once, ascending.
pub proof fn lemma_sorted_pages(m: &HashMap<u32, u64>, max: u32, v: Vec<u32>)
    requires
        forall|k: u32| #[trigger] m@.dom().contains(k) ==> k <= max,
        call_ensures(sorted_pages, (m, max), v),
    ensures
        forall|i: int, j: int| 0 <= i < j < v@.len() ==> v@[i] < v@[j],
        forall|k: u32| #[trigger] v@.contains(k) <==> m@.dom().contains(k),
{
    assert forall|k: u32| #[trigger] v@.contains(k) <==> m@.dom().contains(k) by {
        if m@.dom().contains(k) {
            lemma_key_is_there(m@.dom(), max as int, k);
        }
    }
}

proof fn lemma_key_is_there(dom: Set<u32>, n: int, k: u32)
    requires
        dom.contains(k),
        k <= n <= u32::MAX,
    ensures
        ascending_keys(dom, n).contains(k),
    decreases n,
{
    let all = ascending_keys(dom, n);
    if k == n {
        assert(all.last() == k);
    } else {
        lemma_key_is_there(dom, n - 1, k);
        let front = ascending_keys(dom, n - 1);
        let i = choose|i: int| 0 <= i < front.len() && front[i] == k;
        assert(all[i] == k);
    }
}

} // verus!
