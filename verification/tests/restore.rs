use std::collections::HashMap;

use literstream::ltx::{
    Checksum, Encoder, HEADER_FLAG_NO_CHECKSUM, Header, INDEX_FOOTER_SIZE, LtxError, compact,
};
use literstream::sync::apply::{ApplyAction, ApplyRun, DenseSet, PageSet, SparseSet};
use literstream::sync::compaction::merge_snapshot;
use literstream::sync::image::{apply_file, apply_plan};
use literstream::sync::plan::{plan_restore, plan_restore_from, plan_restore_to};
use literstream::sync::reader::{Lookup, PageReader, footer_offset, index_range, plan_window};
use literstream::sync::restore::{
    CatchUpPlan, TimestampScan, accept_delta, local_page_size, plan_catch_up,
    plan_restore_to_txid, same_page_size,
};
use literstream::sync::{CatchUp, DeltaShape, FallbackReason, Marker, SyncError};

type Key = (u32, u64, u64);

const PS: u32 = 512;

fn ltx_at(commit: u32, min: u64, max: u64, timestamp: i64, pages: &[(u32, u8)]) -> Vec<u8> {
    let mut enc = Encoder::new();
    enc.encode_header(Header {
        flags: HEADER_FLAG_NO_CHECKSUM,
        page_size: PS,
        commit,
        min_txid: min,
        max_txid: max,
        timestamp,
        pre_apply_checksum: Checksum::zero(),
        wal_offset: 0,
        wal_size: 0,
        wal_salt1: 0,
        wal_salt2: 0,
        node_id: 0,
    })
    .unwrap();
    for &(pgno, b) in pages {
        enc.encode_page(pgno, &[b; PS as usize]).unwrap();
    }
    enc.finish().unwrap();
    enc.into_inner()
}

fn ltx(commit: u32, min: u64, max: u64, pages: &[(u32, u8)]) -> Vec<u8> {
    ltx_at(commit, min, max, 0, pages)
}

/// An image of one-byte-filled pages.
fn image(fills: &[u8]) -> Vec<u8> {
    fills.iter().flat_map(|&b| vec![b; PS as usize]).collect()
}

/// A replica in memory.
struct Replica(HashMap<Key, Vec<u8>>);

impl Replica {
    fn keys(&self) -> Vec<Key> {
        let mut ks: Vec<Key> = self.0.keys().copied().collect();
        ks.sort();
        ks
    }
}

/// Five transactions: a snapshot of three pages, a change, a shrink to one page,
/// growth to four pages, and one more change.
fn replica() -> Replica {
    let files: Vec<(Key, Vec<u8>)> = vec![
        ((0, 1, 1), ltx(3, 1, 1, &[(1, 1), (2, 1), (3, 1)])),
        ((0, 2, 2), ltx(3, 2, 2, &[(2, 2)])),
        ((0, 3, 3), ltx(1, 3, 3, &[(1, 3)])),
        ((0, 4, 4), ltx(4, 4, 4, &[(2, 4), (3, 4), (4, 4)])),
        ((0, 5, 5), ltx(4, 5, 5, &[(3, 5)])),
    ];
    Replica(files.into_iter().collect())
}

/// A disk in memory: the marker, the file, and every marker and page write so far.
#[derive(Default)]
struct Disk {
    marker: Option<Marker>,
    file: Vec<u8>,
    synced: bool,
    writes: usize,
}

fn perform<S: PageSet>(r: &Replica, mut run: ApplyRun<S>, d: &mut Disk) -> Result<u64, SyncError> {
    loop {
        match run.next()? {
            ApplyAction::WriteMarker(m) => {
                if let Marker::Clean { file_len, .. } = m {
                    assert!(d.synced, "clean before the file is durable");
                    assert_eq!(file_len, d.file.len() as u64);
                }
                d.marker = Some(m);
            }
            action => {
                // Nothing touches the file before the marker says so.
                if !matches!(action, ApplyAction::Done(_)) {
                    assert!(matches!(d.marker, Some(Marker::Applying { .. })));
                }
                match action {
                    ApplyAction::Create => d.file.clear(),
                    ApplyAction::Open => {}
                    ApplyAction::SetLen(n) => {
                        d.file.resize(n as usize, 0);
                        d.synced = false;
                    }
                    ApplyAction::Fetch(key) => run.supply(r.0[&key].clone())?,
                    ApplyAction::WritePage { offset, data } => {
                        let at = offset as usize;
                        d.file[at..at + data.len()].copy_from_slice(&data);
                        d.synced = false;
                        d.writes += 1;
                    }
                    ApplyAction::SyncAll => d.synced = true,
                    ApplyAction::Done(txid) => return Ok(txid),
                    ApplyAction::WriteMarker(_) => unreachable!(),
                }
            }
        }
    }
}

fn full(r: &Replica, d: &mut Disk) -> Result<u64, SyncError> {
    let plan = plan_restore(&r.keys())?;
    let head = r.0[plan.last().unwrap()][..100].to_vec();
    perform(r, ApplyRun::full(plan, &head)?, d)
}

fn shape(r: &Replica, plan: &[Key]) -> Result<DeltaShape, SyncError> {
    let mut s = DeltaShape::empty();
    for k in plan {
        s = s.with(&r.0[k][..100])?;
    }
    Ok(s)
}

fn delta(r: &Replica, from: u64, d: &mut Disk) -> Result<u64, SyncError> {
    let plan = plan_restore_from(&r.keys(), from)?;
    let s = shape(r, &plan)?;
    perform(r, ApplyRun::delta(plan, from, s), d)
}

fn in_memory(r: &Replica, plan: &[Key]) -> Vec<u8> {
    let files: Vec<&[u8]> = plan.iter().map(|k| r.0[k].as_slice()).collect();
    apply_plan(&files).unwrap()
}

#[test]
fn every_restore_lands_on_the_same_image() {
    let r = replica();
    let last = image(&[3, 4, 5, 4]);
    assert_eq!(in_memory(&r, &plan_restore(&r.keys()).unwrap()), last);

    let mut d = Disk { file: vec![0xee; 9999], ..Disk::default() };
    assert_eq!(full(&r, &mut d), Ok(5));
    assert_eq!(d.file, last);
    assert_eq!(d.writes, 4, "each page is written once");
    assert_eq!(
        d.marker,
        Some(Marker::Clean { txid: 5, page_size: PS, commit: 4, file_len: 2048 })
    );

    // From the state after each transaction, the delta gives the same image.
    let states = [
        image(&[1, 1, 1]),
        image(&[1, 2, 1]),
        image(&[3]),
        image(&[3, 4, 4, 4]),
    ];
    for (i, state) in states.iter().enumerate() {
        let from = i as u64 + 1;
        let plan = plan_restore_to(&r.keys(), from).unwrap();
        assert_eq!(&in_memory(&r, &plan), state);
        let mut d = Disk { file: state.clone(), ..Disk::default() };
        assert_eq!(delta(&r, from, &mut d), Ok(5));
        assert_eq!(d.file, last, "from txid {from}");
    }
}

#[test]
fn compacted_files_restore_the_same() {
    let mut r = replica();
    let keys = r.keys();
    let merge = |r: &Replica, ks: &[Key]| {
        let files: Vec<&[u8]> = ks.iter().map(|k| r.0[k].as_slice()).collect();
        compact(&files).unwrap()
    };
    let l1 = merge(&r, &keys[1..4]);
    let snap = merge(&r, &keys[..3]);
    r.0.insert((1, 2, 4), l1);
    r.0.insert((9, 1, 3), snap);

    let mut d = Disk::default();
    assert_eq!(full(&r, &mut d), Ok(5));
    assert_eq!(d.file, image(&[3, 4, 5, 4]));

    // The delta from 2 uses the coarser file, which starts before it.
    assert_eq!(
        plan_restore_from(&r.keys(), 2).unwrap(),
        vec![(1, 2, 4), (0, 5, 5)]
    );
    let mut d = Disk { file: image(&[1, 2, 1]), ..Disk::default() };
    assert_eq!(delta(&r, 2, &mut d), Ok(5));
    assert_eq!(d.file, image(&[3, 4, 5, 4]));
}

#[test]
fn pruning_below_a_snapshot_keeps_the_chain_restorable() {
    let mut r = replica();
    let keys = r.keys();
    let files: Vec<&[u8]> = keys[..3].iter().map(|k| r.0[k].as_slice()).collect();
    let snap = compact(&files).unwrap();
    r.0.insert((9, 1, 3), snap);
    r.0.remove(&(0, 1, 1));
    r.0.remove(&(0, 2, 2));
    let mut d = Disk::default();
    assert_eq!(full(&r, &mut d), Ok(5));
    assert_eq!(d.file, image(&[3, 4, 5, 4]));
}

#[test]
fn an_interrupted_apply_leaves_the_marker_dirty() {
    let mut r = replica();
    // The oldest file is damaged: the apply fails on the way.
    let b = r.0.get_mut(&(0, 1, 1)).unwrap();
    b[106] ^= 0xff;
    let mut d = Disk::default();
    assert_eq!(full(&r, &mut d), Err(SyncError::Ltx(LtxError::Frame)));
    assert_eq!(d.marker, Some(Marker::Applying { from: 0, to: 5 }));
    match plan_catch_up(&r.keys(), d.marker, Some(d.file.len() as u64)) {
        CatchUpPlan::Full(reason) => assert_eq!(reason, FallbackReason::DirtyMarker),
        other => panic!("{other:?}"),
    }
}

#[test]
fn a_file_that_does_not_decode_is_not_applied() {
    let good = ltx(2, 2, 2, &[(1, 1), (2, 2)]);
    assert_eq!(apply_file(vec![9; 5000], &good), Ok(image(&[1, 2])));
    // The image keeps the pages that the file does not carry.
    let one = ltx(3, 3, 3, &[(2, 7)]);
    assert_eq!(apply_file(image(&[1, 2]), &one), Ok(image(&[1, 7, 0])));
    let mut bad = good.clone();
    bad[12..16].copy_from_slice(&1u32.to_be_bytes());
    assert!(matches!(
        apply_file(Vec::new(), &bad),
        Err(SyncError::Ltx(LtxError::FileChecksumMismatch { .. }))
    ));
    assert_eq!(
        apply_file(Vec::new(), &good[..50]),
        Err(SyncError::Ltx(LtxError::ShortBuffer { need: 100, got: 50 }))
    );
}

#[test]
fn a_page_is_claimed_once() {
    let mut dense = DenseSet::new(3);
    assert!(dense.claim(3));
    assert!(!dense.claim(3));
    assert!(dense.claim(1));
    assert!(!dense.claim(4), "beyond the database");
    let mut sparse = SparseSet::new();
    assert!(sparse.claim(4_000_000_000));
    assert!(!sparse.claim(4_000_000_000));
    assert!(sparse.claim(1));
}

#[test]
fn restoring_to_a_transaction() {
    let files = vec![(9, 1, 3), (0, 1, 1), (0, 2, 2), (0, 4, 4)];
    assert_eq!(
        plan_restore_to_txid(&files, 2),
        Ok((vec![(0, 1, 1), (0, 2, 2)], 2))
    );
    assert_eq!(
        plan_restore_to_txid(&files, 9),
        Ok((vec![(9, 1, 3), (0, 4, 4)], 4))
    );
    assert_eq!(
        plan_restore_to_txid(&files, 0),
        Err(SyncError::TxidTooOld { requested: 0 })
    );
    assert_eq!(
        plan_restore_to_txid(&[(9, 1, 5)], 4),
        Err(SyncError::TxidTooOld { requested: 4 })
    );
}

fn target(files: &[(Key, i64)], ts: i64) -> (Result<u64, SyncError>, usize) {
    let heads: HashMap<Key, Vec<u8>> = files
        .iter()
        .map(|&(k, t)| (k, ltx_at(1, k.1, k.2, t, &[(1, 1)])))
        .collect();
    let mut scan = TimestampScan::new(files.iter().map(|f| f.0).collect(), ts);
    let mut read = 0;
    while let Some(k) = scan.pending() {
        read += 1;
        scan.examine(&heads[&k][..100]).unwrap();
    }
    (scan.finish(), read)
}

#[test]
fn restoring_to_an_instant() {
    let files = [((0, 1, 1), 10), ((0, 2, 2), 20), ((0, 3, 3), 30), ((9, 1, 3), 30)];
    assert_eq!(target(&files, 25).0, Ok(2));
    assert_eq!(target(&files, 30), (Ok(3), 3), "the snapshot is not read");
    assert_eq!(target(&files, 9).0, Err(SyncError::TxidTooOld { requested: 0 }));
    let mut scan = TimestampScan::new(vec![(0, 1, 1)], 5);
    assert_eq!(scan.pending(), Some((0, 1, 1)));
    assert_eq!(
        scan.examine(&[0; 3]),
        Err(SyncError::Ltx(LtxError::ShortBuffer { need: 100, got: 3 }))
    );
}

#[test]
fn the_shape_of_a_delta() {
    let r = replica();
    assert_eq!(
        shape(&r, &[(0, 2, 2), (0, 3, 3), (0, 4, 4)]),
        Ok(DeltaShape { page_size: PS, final_commit: 4, min_commit: 1 })
    );
    let mut enc = Encoder::new();
    let h = Header::decode(&r.0[&(0, 5, 5)]).unwrap();
    enc.encode_header(Header { page_size: 1024, ..h }).unwrap();
    enc.finish().unwrap();
    let other = enc.into_inner();
    let s = DeltaShape::empty().with(&r.0[&(0, 2, 2)][..100]).unwrap();
    assert_eq!(
        s.with(&other[..100]),
        Err(SyncError::Ltx(LtxError::InvalidPageSize(1024)))
    );

    let mut hdr = vec![0u8; 18];
    hdr[16] = 0x10;
    assert_eq!(local_page_size(&hdr), Some(4096));
    hdr[16] = 0;
    hdr[17] = 1;
    assert_eq!(local_page_size(&hdr), Some(65536));
    assert_eq!(local_page_size(&hdr[..17]), None);

    let s = DeltaShape { page_size: 4096, final_commit: 1, min_commit: 1 };
    assert_eq!(accept_delta(Some(4096), s), Ok(()));
    assert_eq!(
        accept_delta(Some(512), s),
        Err(SyncError::Ltx(LtxError::InvalidPageSize(4096)))
    );
    assert_eq!(
        accept_delta(None, s),
        Err(SyncError::Ltx(LtxError::InvalidPageSize(0)))
    );
    assert!(same_page_size(4096, s, Some(4096)));
    assert!(!same_page_size(4096, s, None));
    assert!(!same_page_size(512, s, Some(512)));
}

fn reason(p: CatchUpPlan) -> FallbackReason {
    match p {
        CatchUpPlan::Full(r) => r,
        other => panic!("{other:?}"),
    }
}

#[test]
fn catching_up_trusts_only_a_clean_marker() {
    let files = vec![(9, 1, 3), (0, 4, 4), (0, 5, 5)];
    let clean = |txid: u64| Some(Marker::Clean { txid, page_size: PS, commit: 2, file_len: 1024 });

    assert_eq!(reason(plan_catch_up(&files, None, Some(1024))), FallbackReason::NoMarker);
    assert_eq!(
        reason(plan_catch_up(&files, Some(Marker::Applying { from: 1, to: 3 }), Some(1024))),
        FallbackReason::DirtyMarker
    );
    assert_eq!(
        reason(plan_catch_up(&files, clean(4), Some(1023))),
        FallbackReason::LengthMismatch
    );
    assert_eq!(reason(plan_catch_up(&files, clean(4), None)), FallbackReason::LengthMismatch);
    assert_eq!(reason(plan_catch_up(&files, clean(6), Some(1024))), FallbackReason::LocalAhead);
    assert_eq!(
        reason(plan_catch_up(&[(9, 1, 3), (0, 5, 5)], clean(3), Some(1024))),
        FallbackReason::ChainGap
    );
    match plan_catch_up(&files, clean(5), Some(1024)) {
        CatchUpPlan::UpToDate { txid } => assert_eq!(txid, 5),
        other => panic!("{other:?}"),
    }
    match plan_catch_up(&files, clean(3), Some(1024)) {
        CatchUpPlan::Delta { from, page_size, plan } => {
            assert_eq!((from, page_size), (3, PS));
            assert_eq!(plan, vec![(0, 4, 4), (0, 5, 5)]);
        }
        other => panic!("{other:?}"),
    }

    // The page size of the files and of the file itself must be the marker's.
    let s = DeltaShape { page_size: PS, final_commit: 2, min_commit: 2 };
    match plan_catch_up(&files, clean(3), Some(1024)).confirm(s, Some(PS)) {
        CatchUpPlan::Delta { from, plan, .. } => assert_eq!((from, plan.len()), (3, 2)),
        other => panic!("{other:?}"),
    }
    let wide = DeltaShape { page_size: 4096, ..s };
    for (shape, local) in [(wide, Some(PS)), (s, Some(4096)), (s, None), (wide, Some(4096))] {
        assert_eq!(
            reason(plan_catch_up(&files, clean(3), Some(1024)).confirm(shape, local)),
            FallbackReason::PageSizeChanged
        );
    }
    assert_eq!(
        reason(plan_catch_up(&files, None, Some(1024)).confirm(s, Some(PS))),
        FallbackReason::NoMarker
    );

    // What a run leaves behind is found up to date.
    let r = replica();
    let mut d = Disk::default();
    full(&r, &mut d).unwrap();
    match plan_catch_up(&r.keys(), d.marker, Some(d.file.len() as u64)) {
        CatchUpPlan::UpToDate { txid } => assert_eq!(txid, 5),
        other => panic!("{other:?}"),
    }
}

#[test]
fn catch_up_reads_well() {
    assert_eq!(CatchUp::UpToDate { txid: 5 }.message(), "up to date at txid 5");
    assert_eq!(
        CatchUp::Incremental { from: 3, to: 5, files: 2 }.message(),
        "applied 2 file(s), txid 3 -> 5"
    );
    assert_eq!(
        CatchUp::FullRestore { to: 5, reason: FallbackReason::PageSizeChanged }.message(),
        "full restore to txid 5 (page size changed)"
    );
    assert_eq!(FallbackReason::LocalAhead.message(), "local copy is ahead of the replica");
}

fn read_page(r: &Replica, p: &mut PageReader, pgno: u32) -> Option<Vec<u8>> {
    loop {
        match p.lookup(pgno) {
            Lookup::Absent => return None,
            Lookup::LoadIndex(i) => {
                let b = &r.0[&p.key(i)];
                let at = footer_offset(b.len() as u64).unwrap() as usize;
                let (start, len) =
                    index_range(b.len() as u64, &b[at..at + INDEX_FOOTER_SIZE as usize]).unwrap();
                p.store_index(i, &b[start as usize..(start + len) as usize]).unwrap();
            }
            Lookup::Fetch { key, offset, size } => {
                let b = &r.0[&key];
                return Some(p.decode(&b[offset as usize..(offset + size) as usize]).unwrap());
            }
        }
    }
}

#[test]
fn single_pages_read_as_the_restored_image() {
    let r = replica();
    for (at, img) in [(None, image(&[3, 4, 5, 4])), (Some(2), image(&[1, 2, 1]))] {
        let plan = plan_window(&r.keys(), at).unwrap();
        let oldest = r.0[&plan[0]][..100].to_vec();
        let newest = r.0[&plan[plan.len() - 1]][..100].to_vec();
        let mut p = PageReader::new(plan, &oldest, &newest).unwrap();
        assert_eq!(p.page_size(), PS);
        assert_eq!(p.commit() as usize, img.len() / PS as usize);
        for (i, page) in img.chunks(PS as usize).enumerate() {
            assert_eq!(read_page(&r, &mut p, i as u32 + 1).as_deref(), Some(page));
        }
        assert_eq!(read_page(&r, &mut p, 9), None);
    }
    assert_eq!(
        plan_window(&r.keys(), Some(0)),
        Err(SyncError::TxidTooOld { requested: 0 })
    );
    assert_eq!(
        footer_offset(23),
        Err(SyncError::Ltx(LtxError::ShortBuffer { need: 24, got: 23 }))
    );
    assert_eq!(
        index_range(30, &[0, 0, 0, 0, 0, 0, 0, 7]),
        Err(SyncError::Ltx(LtxError::ShortBuffer { need: 31, got: 30 }))
    );
}

#[test]
fn deleting_folded_files_keeps_the_chain_restorable() {
    let mut r = replica();
    let keys = r.keys();
    let files: Vec<&[u8]> = keys[..3].iter().map(|k| r.0[k].as_slice()).collect();
    let folded = compact(&files).unwrap();
    r.0.insert((1, 1, 3), folded);
    for txid in 1..=3 {
        r.0.remove(&(0, txid, txid));
    }
    assert_eq!(plan_restore(&r.keys()), Ok(vec![(1, 1, 3), (0, 4, 4), (0, 5, 5)]));
    let mut d = Disk::default();
    assert_eq!(full(&r, &mut d), Ok(5));
    assert_eq!(d.file, image(&[3, 4, 5, 4]));
}

#[test]
fn a_page_past_the_end_of_a_shrunk_database_is_absent() {
    let files: Vec<(Key, Vec<u8>)> = vec![
        ((0, 1, 1), ltx(3, 1, 1, &[(1, 1), (2, 1), (3, 1)])),
        ((0, 2, 2), ltx(2, 2, 2, &[(1, 2)])),
    ];
    let r = Replica(files.into_iter().collect());
    let plan = plan_window(&r.keys(), None).unwrap();
    let oldest = r.0[&plan[0]][..100].to_vec();
    let newest = r.0[&plan[1]][..100].to_vec();
    let mut p = PageReader::new(plan, &oldest, &newest).unwrap();
    assert_eq!(read_page(&r, &mut p, 1), Some(vec![2; PS as usize]));
    assert_eq!(read_page(&r, &mut p, 2), Some(vec![1; PS as usize]));
    assert_eq!(read_page(&r, &mut p, 3), None);
}

#[test]
fn a_snapshot_on_the_replica_changes_no_restore() {
    let mut r = replica();
    let mut before = Disk::default();
    assert_eq!(full(&r, &mut before), Ok(5));
    let files: Vec<&[u8]> = r.keys().iter().map(|k| r.0[k].as_slice()).collect();
    let snap = merge_snapshot(&files, 5, 0).unwrap();
    r.0.insert((9, 1, 5), snap);
    assert_eq!(plan_restore(&r.keys()), Ok(vec![(9, 1, 5)]));
    let mut after = Disk::default();
    assert_eq!(full(&r, &mut after), Ok(5));
    assert_eq!(after.file, before.file);
}
