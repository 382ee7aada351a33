use std::collections::HashMap;

use literstream::db::{CheckpointMode, CheckpointResult};
use literstream::ltx::{
    Checksum, Encoder, HEADER_FLAG_NO_CHECKSUM, Header, LtxError, read_file,
};
use literstream::storage::{LtxFileInfo, PutOutcome};
use literstream::sync::capture::{SnapshotBuild, build_incremental, settle_upload, sorted_pages};
use literstream::sync::checkpoint::{CheckpointCycle, CycleAction, CycleEvent, checkpoint_mode};
use literstream::sync::compaction::{
    merge_snapshot, plan_compact, plan_l0_retention, plan_level, plan_level_pruning,
    plan_snapshot, plan_snapshot_retention,
};
use literstream::sync::driver::{DEFAULT_CHECKPOINT_INTERVAL_SECS, DEFAULT_SNAPSHOT_INTERVAL_SECS};
use literstream::sync::position::{derive_position, no_checksum_header, resume_file};
use literstream::sync::{
    CompactionInfo, CompactionLevels, Driver, LevelFault, Plan, Position, SyncError, SyncOutcome,
    TickAction, TickEvent, TickReport,
};
use literstream::time::{Span, Time, checked_interval_boundary, interval_boundary};
use literstream::wal::{ByteOrder, WAL_MAGIC_BE, WAL_VERSION, WalError, WalHeader, wal_checksum};

const PS: u32 = 512;

fn wal(frames: &[(u32, u32, u8)]) -> Vec<u8> {
    let mut b = Vec::new();
    for w in [WAL_MAGIC_BE, WAL_VERSION, PS, 0, 11, 22] {
        b.extend_from_slice(&w.to_be_bytes());
    }
    let mut sum = wal_checksum(ByteOrder::Big, 0, 0, &b);
    b.extend_from_slice(&sum.0.to_be_bytes());
    b.extend_from_slice(&sum.1.to_be_bytes());
    for &(pgno, commit, fill) in frames {
        let mut head = Vec::new();
        head.extend_from_slice(&pgno.to_be_bytes());
        head.extend_from_slice(&commit.to_be_bytes());
        let data = vec![fill; PS as usize];
        let s = wal_checksum(ByteOrder::Big, sum.0, sum.1, &head);
        sum = wal_checksum(ByteOrder::Big, s.0, s.1, &data);
        head.extend_from_slice(&11u32.to_be_bytes());
        head.extend_from_slice(&22u32.to_be_bytes());
        head.extend_from_slice(&sum.0.to_be_bytes());
        head.extend_from_slice(&sum.1.to_be_bytes());
        b.extend_from_slice(&head);
        b.extend_from_slice(&data);
    }
    b
}

fn pos(txid: u64, wal_offset: u64) -> Position {
    Position { txid, wal_offset, salt1: 11, salt2: 22, synced_to_wal_end: false }
}

#[test]
fn pages_come_out_ascending() {
    let m: HashMap<u32, u64> = [(30, 1), (2, 2), (17, 3), (1, 4)].into_iter().collect();
    assert_eq!(sorted_pages(&m, 30), vec![1, 2, 17, 30]);
}

#[test]
fn an_incremental_holds_the_newest_committed_pages() {
    let w = wal(&[(5, 0, 1), (2, 0, 2), (5, 9, 3), (1, 0, 4)]);
    let h = WalHeader::parse(&w).unwrap();
    let f = build_incremental(
        &pos(6, 32), PS, 32, 11, 22, w.len() as u64, h, &[0; 24], &w[32..], 77,
    )
    .unwrap()
    .unwrap();
    assert_eq!(f.outcome, SyncOutcome::Incremental { txid: 7, pages: 2 });
    assert_eq!((f.level, f.min_txid, f.max_txid), (0, 7, 7));
    assert_eq!(f.new_pos.wal_offset, 32 + 3 * 536);
    assert!(!f.new_pos.synced_to_wal_end); // the uncommitted frame stays behind
    let file = read_file(&f.bytes).unwrap();
    assert_eq!((file.header.commit, file.header.timestamp), (9, 77));
    assert_eq!((file.header.wal_offset, file.header.wal_size), (32, 3 * 536));
    assert_eq!(
        file.pages,
        vec![(2, vec![2; PS as usize]), (5, vec![3; PS as usize])]
    );

    // The next sync goes on where this one ended: nothing was committed since.
    let end = f.new_pos.wal_offset;
    let prev = &w[(end - 536) as usize..(end - 536 + 24) as usize];
    let none = build_incremental(
        &f.new_pos, PS, end, 11, 22, w.len() as u64, h, prev, &w[end as usize..], 78,
    );
    assert!(none.unwrap().is_none());

    // A frame of another generation before the offset is a discontinuity.
    let err = build_incremental(
        &f.new_pos, PS, end, 11, 22, w.len() as u64, h, &[0; 24], &w[end as usize..], 78,
    );
    assert_eq!(err.err(), Some(SyncError::Wal(WalError::PrevFrameMismatch)));
}

#[test]
fn a_snapshot_takes_pages_from_the_wal_and_the_database() {
    let w = wal(&[(2, 3, 9)]);
    let db = vec![1u8; 3 * PS as usize];
    let mut b =
        SnapshotBuild::begin(&pos(0, 0), PS, db.len() as u64, 32, &w, 5).unwrap();
    let mut asked = Vec::new();
    while let Some(p) = b.advance().unwrap() {
        asked.push(p);
        let at = (p as usize - 1) * PS as usize;
        b.supply(&db[at..at + PS as usize]).unwrap();
    }
    assert_eq!(asked, vec![1, 3]);
    let f = b.finish();
    assert_eq!(f.outcome, SyncOutcome::Snapshot { txid: 1, pages: 3 });
    assert!(f.new_pos.synced_to_wal_end);
    let file = read_file(&f.bytes).unwrap();
    let fills: Vec<_> = file.pages.iter().map(|(p, d)| (*p, d[0])).collect();
    assert_eq!(fills, vec![(1, 1), (2, 9), (3, 1)]);

    // Without a WAL the size comes from the database file.
    let mut b = SnapshotBuild::begin(&pos(4, 0), PS, 1024, 32, &[], 5).unwrap();
    assert_eq!(b.advance(), Ok(Some(1)));
    assert_eq!(
        b.supply(&[0; 100]),
        Err(SyncError::Ltx(LtxError::WrongPageLength { expected: 512, got: 100 }))
    );
    b.supply(&db[..512]).unwrap();
    assert_eq!(b.advance(), Ok(Some(2)));
    b.supply(&db[..512]).unwrap();
    assert_eq!(b.advance(), Ok(None));
    assert_eq!(b.finish().outcome, SyncOutcome::Snapshot { txid: 5, pages: 2 });
}

#[test]
fn a_snapshot_can_be_taken_out_as_it_grows() {
    let db: Vec<u8> = (0..3 * 512).map(|i| (i / 512) as u8 + 1).collect();
    let w = wal(&[]);
    let build = |piecewise: bool| {
        let mut b =
            SnapshotBuild::begin(&pos(4, 32), PS, db.len() as u64, 32, &w, 9).unwrap();
        let mut out = Vec::new();
        while let Some(p) = b.advance().unwrap() {
            let at = (p as usize - 1) * 512;
            b.supply(&db[at..at + 512]).unwrap();
            if piecewise {
                let piece = b.take_output();
                assert!(!piece.is_empty());
                out.extend_from_slice(&piece);
            }
        }
        let f = b.finish();
        assert_eq!(piecewise, f.bytes.len() < 100);
        out.extend_from_slice(&f.bytes);
        out
    };
    let whole = build(false);
    assert_eq!(build(true), whole);
    assert_eq!(read_file(&whole).unwrap().pages.len(), 3);
}

#[test]
fn what_to_write_next() {
    let h = WalHeader::parse(&wal(&[])).unwrap();
    assert_eq!(pos(0, 0).plan(0, None), Plan::Snapshot { offset: 32 });
    // No WAL: nothing to do if it was read to its end, else start over.
    assert_eq!(pos(3, 100).plan(0, None), Plan::Snapshot { offset: 32 });
    let mut done = pos(3, 100);
    done.synced_to_wal_end = true;
    assert_eq!(done.plan(0, None), Plan::Skip);
    // The same generation goes on; a new or shrunk one starts over.
    assert_eq!(
        pos(3, 100).plan(200, Some(&h)),
        Plan::Incremental { offset: 100, salt1: 11, salt2: 22 }
    );
    assert_eq!(
        pos(3, 300).plan(200, Some(&h)),
        Plan::Incremental { offset: 32, salt1: 11, salt2: 22 }
    );
    let mut other = pos(3, 100);
    other.salt1 = 99;
    assert_eq!(
        other.plan(200, Some(&h)),
        Plan::Incremental { offset: 32, salt1: 11, salt2: 22 }
    );
    assert_eq!(pos(1, 32 + 2 * 536).live_wal_frames(PS), 2);
}

#[test]
fn a_restart_resumes_where_the_last_sync_ended() {
    let w = wal(&[(1, 1, 1)]);
    let h = WalHeader::parse(&w).unwrap();
    let f = build_incremental(&pos(6, 32), PS, 32, 11, 22, w.len() as u64, h, &[0; 24], &w[32..], 0)
        .unwrap()
        .unwrap();
    let files = vec![(9, 1, 6), (0, 6, 6), (0, 7, 7)];
    assert_eq!(resume_file(&files), Some((0, 7, 7)));
    let p = derive_position(&files, Some(&f.bytes)).unwrap();
    assert_eq!(
        p,
        Position { txid: 7, wal_offset: 32 + 536, salt1: 11, salt2: 22, synced_to_wal_end: false }
    );
    // Without an L0 file the WAL state is unknown, and a snapshot is due.
    assert_eq!(resume_file(&[(9, 1, 6)]), None);
    let p = derive_position(&[(9, 1, 6)], None).unwrap();
    assert_eq!(p.txid, 6);
    assert_eq!(p.plan(w.len() as u64, Some(&h)), Plan::Snapshot { offset: 32 });
    assert_eq!(derive_position(&[], None).unwrap().txid, 0);
}

#[test]
fn checkpoint_thresholds_and_the_cycle() {
    assert_eq!(checkpoint_mode(999, 1000, 121359), None);
    assert_eq!(checkpoint_mode(1000, 1000, 121359), Some(CheckpointMode::Passive));
    assert_eq!(checkpoint_mode(121359, 1000, 121359), Some(CheckpointMode::Truncate));

    let p = pos(3, 32);
    let result = CheckpointResult { busy: false, log_frames: 3, checkpointed_frames: 3 };
    // Three frames were folded, but only two were captured: a snapshot follows.
    let mut c = CheckpointCycle::begin(CheckpointMode::Passive, PS);
    assert_eq!(c.action(), CycleAction::StageNext);
    c.handle(&p, CycleEvent::Staged(Some(32 + 2 * 536)));
    assert_eq!(c.action(), CycleAction::Checkpoint(CheckpointMode::Passive));
    c.handle(&p, CycleEvent::Checkpointed(result));
    assert_eq!(c.action(), CycleAction::UploadStaged);
    c.handle(&p, CycleEvent::Uploaded);
    assert_eq!(c.action(), CycleAction::Resnapshot);
    c.handle(&p, CycleEvent::Resnapshotted);
    assert_eq!(c.action(), CycleAction::Finish(CheckpointMode::Passive, result));

    // All three were captured: it is over after the upload.
    let mut c = CheckpointCycle::begin(CheckpointMode::Passive, PS);
    c.handle(&p, CycleEvent::Staged(Some(32 + 3 * 536)));
    c.handle(&p, CycleEvent::Checkpointed(result));
    c.handle(&p, CycleEvent::Uploaded);
    assert_eq!(c.action(), CycleAction::Finish(CheckpointMode::Passive, result));
}

fn info(level: u32, min: u64, max: u64) -> LtxFileInfo {
    LtxFileInfo { level, min_txid: min, max_txid: max, size: 1, created_at: None }
}

#[test]
fn compaction_plans() {
    // Into a base: all L0 files past it but the newest.
    let l0 = vec![info(0, 4, 4), info(0, 5, 5), info(0, 6, 6), info(0, 7, 7)];
    let p = plan_compact(&l0, &[info(1, 1, 4)]).unwrap();
    assert_eq!(p.base, Some(info(1, 1, 4)));
    assert_eq!(p.inputs(), vec![(1, 1, 4), (0, 5, 5), (0, 6, 6)]);
    assert_eq!(p.target(), (1, 1, 6));
    assert_eq!(p.merge, vec![info(0, 5, 5), info(0, 6, 6)]);
    assert_eq!(
        p.info(),
        CompactionInfo { min_txid: 1, max_txid: 6, inputs: 3, pruned: 3 }
    );
    assert!(plan_compact(&l0, &[info(1, 1, 6)]).is_none());

    // Without a base; once more, there is nothing left to fold.
    let l0 = vec![info(0, 1, 1), info(0, 2, 2), info(0, 3, 3)];
    let p = plan_compact(&l0, &[]).unwrap();
    assert_eq!((p.level, p.base, p.target()), (1, None, (1, 1, 2)));
    assert_eq!(
        p.info(),
        CompactionInfo { min_txid: 1, max_txid: 2, inputs: 2, pruned: 2 }
    );
    assert!(plan_compact(&[info(0, 3, 3)], &[info(1, 1, 2)]).is_none());
    let l0 = vec![info(0, 4, 4), info(0, 5, 5), info(0, 6, 6), info(0, 7, 7)];

    // Into a level: what lies past its frontier, in TXID order.
    let p = plan_level(1, &[info(1, 1, 5)], &[info(0, 7, 7), info(0, 5, 5), info(0, 6, 6)])
        .unwrap()
        .unwrap();
    assert_eq!(p.files, vec![info(0, 6, 6), info(0, 7, 7)]);
    assert_eq!(
        p.info(),
        CompactionInfo { min_txid: 6, max_txid: 7, inputs: 2, pruned: 0 }
    );
    assert!(plan_level(1, &[info(1, 1, 7)], &l0).unwrap().is_none());
    assert_eq!(
        plan_level(9, &[], &l0).err(),
        Some(SyncError::InvalidCompactionLevels(LevelFault::NotACascadeLevel { level: 9 }))
    );
    assert_eq!(
        plan_level(0, &[], &l0).err().unwrap().message(),
        "invalid compaction levels: cannot compact into level 0; use snapshot() for the snapshot level"
    );

    // A snapshot of everything.
    let files = vec![(9, 1, 4), (0, 5, 5), (0, 6, 6)];
    let p = plan_snapshot(&files, &[info(9, 1, 4)]).unwrap().unwrap();
    assert_eq!((p.files, p.max_txid), (files.clone(), 6));
    assert!(plan_snapshot(&files, &[info(9, 1, 6)]).unwrap().is_none());
    assert!(plan_snapshot(&[], &[]).unwrap().is_none());
    assert_eq!(plan_snapshot(&[(0, 5, 5)], &[]).err(), Some(SyncError::NoSnapshot));
}

#[test]
fn retention_plans() {
    let at = |f: LtxFileInfo, secs: u64| LtxFileInfo { created_at: Some(Time::from_secs(secs)), ..f };
    let snaps = vec![at(info(9, 1, 10), 100), at(info(9, 1, 20), 300)];
    let (deleted, min) = plan_snapshot_retention(Time::from_secs(350), Span::from_secs(100), &snaps);
    assert_eq!(deleted, vec![snaps[0]]);
    assert_eq!(min, 20);
    // Nothing is older than a retention that reaches back before every instant.
    let forever = Span { nanos: u128::MAX };
    assert_eq!(
        plan_snapshot_retention(Time::from_secs(350), forever, &snaps),
        (vec![], 10)
    );
    let level = vec![info(1, 1, 10), info(1, 11, 20), info(1, 21, 30)];
    assert_eq!(plan_level_pruning(20, &level), vec![level[0]]);
    assert_eq!(plan_level_pruning(0, &level), vec![]);
    let l0 = vec![at(info(0, 1, 1), 10), at(info(0, 2, 2), 20), at(info(0, 3, 3), 30)];
    let now = Time::from_secs(1000);
    assert_eq!(plan_l0_retention(now, Span::from_secs(60), &[info(1, 1, 1)], &l0), vec![l0[0]]);
    assert_eq!(plan_l0_retention(now, Span::zero(), &[info(1, 1, 3)], &l0), vec![]);
    assert_eq!(plan_l0_retention(now, forever, &[info(1, 1, 3)], &l0), vec![]);
    assert_eq!(plan_l0_retention(now, Span::from_secs(60), &[], &l0), vec![]);
}

#[test]
fn a_merged_snapshot_has_the_newest_size() {
    let file = |commit: u32, txid: u64, pages: &[(u32, u8)]| {
        let mut e = Encoder::new();
        e.encode_header(no_checksum_header(PS, commit, txid, 0, 0, 0, 0, 0)).unwrap();
        for &(p, b) in pages {
            e.encode_page(p, &[b; PS as usize]).unwrap();
        }
        e.finish().unwrap();
        e.into_inner()
    };
    let a = file(3, 1, &[(1, 1), (2, 1), (3, 1)]);
    let b = file(2, 2, &[(2, 2)]);
    let out = read_file(&merge_snapshot(&[&a, &b], 2, 99).unwrap()).unwrap();
    assert_eq!(
        out.header,
        Header {
            flags: HEADER_FLAG_NO_CHECKSUM,
            page_size: PS,
            commit: 2,
            min_txid: 1,
            max_txid: 2,
            timestamp: 99,
            pre_apply_checksum: Checksum::zero(),
            wal_offset: 0,
            wal_size: 0,
            wal_salt1: 0,
            wal_salt2: 0,
            node_id: 0,
        }
    );
    let fills: Vec<_> = out.pages.iter().map(|(p, d)| (*p, d[0])).collect();
    assert_eq!(fills, vec![(1, 1), (2, 2)]);
}

/// Runs a tick, answering every action as if nothing had to be done but syncing.
fn tick(d: &mut Driver, secs: u64, synced: SyncOutcome, frames: u64) -> (Vec<TickAction>, TickReport) {
    let (mut t, mut a) = d.start(Time::from_secs(secs));
    let mut seen = Vec::new();
    loop {
        seen.push(a);
        let done = CheckpointResult { busy: false, log_frames: 1, checkpointed_frames: 1 };
        let e = match a {
            TickAction::Sync => TickEvent::Synced(synced),
            TickAction::CheckpointIfNeeded => TickEvent::Checkpointed(None),
            TickAction::CountWalFrames => TickEvent::WalFrames(frames),
            TickAction::CheckpointNow(m) => TickEvent::CheckpointedNow(m, done),
            TickAction::CompactLevel(l) => TickEvent::Compacted(Some(CompactionInfo {
                min_txid: 1,
                max_txid: l as u64,
                inputs: 2,
                pruned: 0,
            })),
            TickAction::Snapshot => TickEvent::Snapshotted(None),
            TickAction::EnforceSnapshotRetention { .. } => TickEvent::SnapshotRetentionEnforced,
            TickAction::EnforceL0Retention { .. } => TickEvent::L0Pruned(3),
            TickAction::Totals => TickEvent::Totals { resnapshots: 1, staged_backlog_bytes: 7 },
            TickAction::Finish => return (seen, t.report),
        };
        a = d.step(&mut t, e);
    }
}

#[test]
fn a_tick_does_each_thing_once_per_boundary() {
    let mut d = Driver::new(CompactionLevels::default_levels());
    let day = DEFAULT_SNAPSHOT_INTERVAL_SECS;
    let now = 20_000 * day + 5;
    let (seen, report) = tick(&mut d, now, SyncOutcome::Incremental { txid: 4, pages: 1 }, 9);
    assert_eq!(
        seen,
        vec![
            TickAction::Sync,
            TickAction::CheckpointIfNeeded,
            TickAction::CountWalFrames,
            TickAction::CheckpointNow(CheckpointMode::Passive),
            TickAction::CompactLevel(1),
            TickAction::CompactLevel(2),
            TickAction::CompactLevel(3),
            TickAction::Snapshot,
            TickAction::EnforceSnapshotRetention { retention: Span::from_secs(day), max_level: 3 },
            TickAction::EnforceL0Retention { retention: Span::from_secs(300) },
            TickAction::Totals,
            TickAction::Finish,
        ]
    );
    assert_eq!(report.synced, SyncOutcome::Incremental { txid: 4, pages: 1 });
    assert!(report.checkpoint.is_some());
    let levels: Vec<u32> = report.compactions.iter().map(|c| c.0).collect();
    assert_eq!(levels, vec![1, 2, 3]);
    assert_eq!((report.l0_pruned, report.staged_backlog_bytes), (3, 7));
    assert!(report.resnapshot_fired);

    // A second later nothing is due, and no catch-up snapshot was taken since.
    let (seen, report) = tick(&mut d, now + 1, SyncOutcome::Skipped, 9);
    assert_eq!(
        seen,
        vec![
            TickAction::Sync,
            TickAction::CheckpointIfNeeded,
            TickAction::Totals,
            TickAction::Finish,
        ]
    );
    assert!(!report.resnapshot_fired);

    // Half a minute later level 1 is due again, and L0 retention.
    let (seen, _) = tick(&mut d, now + 30, SyncOutcome::Incremental { txid: 5, pages: 1 }, 9);
    assert_eq!(
        seen,
        vec![
            TickAction::Sync,
            TickAction::CheckpointIfNeeded,
            TickAction::CountWalFrames, // the checkpoint interval has not passed yet
            TickAction::CompactLevel(1),
            TickAction::EnforceL0Retention { retention: Span::from_secs(300) },
            TickAction::Totals,
            TickAction::Finish,
        ]
    );

    // Once it has passed, a checkpoint runs, if the WAL holds anything.
    let later = now + DEFAULT_CHECKPOINT_INTERVAL_SECS + 1;
    let (seen, _) = tick(&mut d, later, SyncOutcome::Skipped, 0);
    assert!(!seen.contains(&TickAction::CheckpointNow(CheckpointMode::Passive)));
    let (seen, _) = tick(&mut d, later, SyncOutcome::Skipped, 1);
    assert!(seen.contains(&TickAction::CheckpointNow(CheckpointMode::Passive)));
}

#[test]
fn zero_intervals_disable() {
    let mut d = Driver::new(CompactionLevels::default_levels())
        .with_checkpoint_interval(Span::zero())
        .with_snapshot_interval(Span::zero())
        .with_snapshot_retention(Span::from_secs(1))
        .with_l0_retention(Span::zero())
        .with_l0_retention_interval(Span::from_secs(1));
    let (seen, _) = tick(&mut d, 1_000_000, SyncOutcome::Incremental { txid: 1, pages: 1 }, 9);
    assert_eq!(
        seen,
        vec![
            TickAction::Sync,
            TickAction::CheckpointIfNeeded,
            TickAction::CompactLevel(1),
            TickAction::CompactLevel(2),
            TickAction::CompactLevel(3),
            TickAction::Totals,
            TickAction::Finish,
        ]
    );
}

#[test]
fn boundaries_are_multiples_of_the_interval() {
    assert_eq!(
        interval_boundary(Time::from_secs(95), Span::from_secs(30)),
        Time::from_secs(90)
    );
    assert_eq!(
        interval_boundary(Time::from_secs(95), Span::zero()),
        Time::from_secs(95)
    );
    // Before the epoch, and after the year 2554, boundaries still floor.
    assert_eq!(
        interval_boundary(Time { nanos: -5_000_000_000 }, Span::from_secs(30)),
        Time { nanos: -30_000_000_000 }
    );
    assert_eq!(
        interval_boundary(Time { nanos: -30_000_000_000 }, Span::from_secs(30)),
        Time { nanos: -30_000_000_000 }
    );
    let far = Time::from_secs(40_000_000_005);
    assert_eq!(interval_boundary(far, Span::from_secs(10)), Time::from_secs(40_000_000_000));
    // A boundary before the earliest instant is none.
    let first = Time { nanos: i128::MIN };
    assert_eq!(checked_interval_boundary(first, Span::from_secs(30)), None);
    assert_eq!(checked_interval_boundary(first, Span { nanos: 2 }), Some(first));
}

#[test]
fn sync_error_messages_read_well() {
    assert_eq!(
        SyncError::Equivocation { txid: 12 }.message(),
        "equivocation: another writer wrote a different LTX at txid 12"
    );
    assert_eq!(SyncError::NoSnapshot.message(), "no snapshot available to restore");
    assert_eq!(
        SyncError::TxidTooOld { requested: 3 }.message(),
        "txid 3 is older than the oldest restorable point"
    );
    assert_eq!(
        SyncError::from(LtxError::NotASnapshot).message(),
        "ltx: not a snapshot LTX file"
    );
    assert_eq!(
        SyncError::from(WalError::HeaderChecksumMismatch).message(),
        "wal: wal header checksum mismatch"
    );
}

#[test]
fn the_position_advances_only_after_an_upload() {
    let w = wal(&[(1, 1, 1)]);
    let h = WalHeader::parse(&w).unwrap();
    let p = pos(6, 32);
    let f = build_incremental(&p, PS, 32, 11, 22, w.len() as u64, h, &[0; 24], &w[32..], 0)
        .unwrap()
        .unwrap();
    assert_eq!(f.new_pos.txid, 7);
    assert_eq!(settle_upload(p, &f, Some(PutOutcome::Created)), f.new_pos);
    assert_eq!(settle_upload(p, &f, Some(PutOutcome::AlreadyIdentical)), f.new_pos);
    assert_eq!(settle_upload(p, &f, Some(PutOutcome::Conflict)), p);
    assert_eq!(settle_upload(p, &f, None), p);
}
