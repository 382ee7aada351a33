use literstream::db::{
    CheckpointAction, CheckpointMode, CheckpointResult, CheckpointRun, is_wal_mode,
    wal_frame_count,
};
use literstream::lock::{LockAttempt, LockError, lock_attempt, lock_file_name};
use literstream::paths;
use literstream::storage::{
    KeyLayout, ListedObject, PutOutcome, UploadMode, cas_outcome, list_ltx, ltx_filename,
    parse_ltx_filename, upload_mode, upload_result,
};
use literstream::sync::SyncError;
use literstream::sync::staging::{StagedEntry, StagedKind, classify, plan_recovery, staged_backlog_bytes};

#[test]
fn names_round_trip_and_sort_by_txid() {
    assert_eq!(ltx_filename(1, 0xab), "0000000000000001-00000000000000ab.ltx");
    assert_eq!(parse_ltx_filename("0000000000000001-00000000000000ab.ltx"), Some((1, 0xab)));
    assert_eq!(parse_ltx_filename(&ltx_filename(7, u64::MAX)), Some((7, u64::MAX)));
    assert!(ltx_filename(9, 9) < ltx_filename(10, 10));
    assert!(ltx_filename(1, 15) < ltx_filename(1, 16));
    assert_eq!(parse_ltx_filename("1-2.ltx.tmp"), None);
    assert_eq!(parse_ltx_filename("12.ltx"), None);
    assert_eq!(parse_ltx_filename("x-2.ltx"), None);
    assert_eq!(parse_ltx_filename("1-10000000000000000.ltx"), None);
    assert_eq!(parse_ltx_filename("+A-b.ltx"), Some((10, 11)));
}

#[test]
fn keys_stand_under_the_prefix_and_level() {
    let k = KeyLayout::new("/app/db/");
    assert_eq!(k.level_dir(9), "app/db/0009");
    assert_eq!(
        k.ltx_key(0, 1, 2),
        "app/db/0000/0000000000000001-0000000000000002.ltx"
    );
    assert_eq!(KeyLayout::new("").level_dir(0x1f), "001f");
    assert_eq!(KeyLayout::new("///").level_dir(0), "0000");
}

#[test]
fn listings_are_sorted_and_skip_strangers() {
    let obj = |name: &str| ListedObject { name: name.to_string(), size: 5, created_at: None };
    let files = list_ltx(
        2,
        &[
            obj("0000000000000003-0000000000000004.ltx"),
            obj("notes.txt"),
            obj("0000000000000001-0000000000000002.ltx"),
        ],
    );
    let got: Vec<_> = files.iter().map(|f| (f.level, f.min_txid, f.max_txid, f.size)).collect();
    assert_eq!(got, vec![(2, 1, 2, 5), (2, 3, 4, 5)]);
}

#[test]
fn guarded_upload_detects_retry_and_conflict() {
    assert_eq!(cas_outcome(b"alpha", None), PutOutcome::Created);
    assert_eq!(cas_outcome(b"alpha", Some(b"alpha")), PutOutcome::AlreadyIdentical);
    assert_eq!(cas_outcome(b"beta", Some(b"alpha")), PutOutcome::Conflict);
    assert_eq!(cas_outcome(b"alph", Some(b"alpha")), PutOutcome::Conflict);
    assert_eq!(upload_result(PutOutcome::Created, 2), Ok(()));
    assert_eq!(upload_result(PutOutcome::AlreadyIdentical, 2), Ok(()));
    assert_eq!(
        upload_result(PutOutcome::Conflict, 2),
        Err(SyncError::Equivocation { txid: 2 })
    );
    assert_eq!(upload_mode(16 * 1024 * 1024), UploadMode::Multipart);
    assert_eq!(upload_mode(16 * 1024 * 1024 - 1), UploadMode::Guarded);
}

#[test]
fn paths_stand_beside_the_database() {
    let db = b"/data/app.db";
    assert_eq!(paths::wal_path(db), b"/data/app.db-wal");
    assert_eq!(paths::staging_root(db), b"/data/app.db-litestream/ltx");
    assert_eq!(paths::marker_path(db), b"/data/app.db-litestream/RESTORED");
    assert_eq!(
        paths::staged_ltx_path(db, 0, 1, 2),
        b"/data/app.db-litestream/ltx/0000/0000000000000001-0000000000000002.ltx"
    );
    assert_eq!(
        paths::compaction_temp(db, 9, 1, 2),
        b"/data/app.db-litestream/compact/0009-0000000000000001-0000000000000002.ltx"
    );
    assert_eq!(paths::with_extension_suffix(b"x.ltx", ".tmp"), b"x.ltx.tmp");
    assert_eq!(lock_file_name(Some("app.db")), ".app.db.literstream.lock");
    assert_eq!(lock_file_name(None), ".db.literstream.lock");
}

#[test]
fn a_lock_that_would_block_is_held() {
    assert_eq!(lock_attempt(0, None, 11, 11), LockAttempt::Acquired);
    assert_eq!(lock_attempt(-1, Some(11), 11, 35), LockAttempt::Held);
    assert_eq!(lock_attempt(-1, Some(35), 11, 35), LockAttempt::Held);
    assert_eq!(lock_attempt(-1, Some(9), 11, 35), LockAttempt::Failed);
    assert_eq!(lock_attempt(-1, None, 11, 35), LockAttempt::Failed);
    assert_eq!(
        LockError::Held("x.lock".to_string()).message(),
        "another literstream process already holds x.lock: single writer per database"
    );
    assert_eq!(LockError::Io("gone".to_string()).message(), "lock io: gone");
}

#[test]
fn staging_is_recovered_in_txid_order() {
    let e = |dir: &str, name: &str, size: u64| StagedEntry {
        dir: dir.to_string(),
        name: name.to_string(),
        size,
    };
    let es = vec![
        e("0000", "0000000000000003-0000000000000003.ltx", 10),
        e("0000", "0000000000000004-0000000000000004.ltx.tmp", 20),
        e("lost+found", "0000000000000009-0000000000000009.ltx", 40),
        e("0000", "0000000000000002-0000000000000002.ltx", 80),
        e("0000", "README", 160),
    ];
    let r = plan_recovery(&es);
    assert_eq!(r.debris, vec![1]);
    let order: Vec<_> = r.uploads.iter().map(|p| (p.min, p.max, p.level, p.entry)).collect();
    assert_eq!(order, vec![(2, 2, 0, 3), (3, 3, 0, 0)]);
    assert_eq!(classify(&es[2]), StagedKind::Ignore);
    assert_eq!(classify(&es[4]), StagedKind::Ignore);
    // Every file named `.ltx` counts towards the backlog.
    assert_eq!(staged_backlog_bytes(&es), 130);
}

#[test]
fn wal_mode_and_frame_counts() {
    assert!(is_wal_mode("wal"));
    assert!(is_wal_mode("WaL"));
    assert!(!is_wal_mode("delete"));
    assert!(!is_wal_mode("wal2"));
    assert_eq!(wal_frame_count(0, 4096), 0);
    assert_eq!(wal_frame_count(32, 4096), 0);
    assert_eq!(wal_frame_count(32 + 3 * 4120 + 10, 4096), 3);
    assert_eq!(CheckpointMode::Truncate.as_sql(), "TRUNCATE");
    assert_eq!(CheckpointMode::Passive.as_sql(), "PASSIVE");
}

fn actions(mode: CheckpointMode, had_lock: bool, result: CheckpointResult) -> Vec<CheckpointAction> {
    let mut run = CheckpointRun::begin(mode, had_lock);
    let mut out = Vec::new();
    loop {
        let a = run.action();
        out.push(a);
        if let CheckpointAction::Finish(_) = a {
            return out;
        }
        run.performed(result);
    }
}

#[test]
fn a_checkpoint_runs_without_our_own_read_lock() {
    let drained = CheckpointResult { busy: false, log_frames: 4, checkpointed_frames: 4 };
    let partial = CheckpointResult { busy: false, log_frames: 4, checkpointed_frames: 2 };
    assert!(drained.fully_checkpointed());
    assert!(!partial.fully_checkpointed());
    assert_eq!(
        actions(CheckpointMode::Passive, true, drained),
        vec![
            CheckpointAction::ReleaseLock,
            CheckpointAction::Run(CheckpointMode::Passive),
            CheckpointAction::BumpSeq,
            CheckpointAction::AcquireLock,
            CheckpointAction::Finish(drained),
        ]
    );
    // A WAL that was not drained is not restarted, nor one that TRUNCATE emptied.
    assert_eq!(
        actions(CheckpointMode::Passive, true, partial),
        vec![
            CheckpointAction::ReleaseLock,
            CheckpointAction::Run(CheckpointMode::Passive),
            CheckpointAction::AcquireLock,
            CheckpointAction::Finish(partial),
        ]
    );
    assert_eq!(
        actions(CheckpointMode::Truncate, false, drained),
        vec![
            CheckpointAction::Run(CheckpointMode::Truncate),
            CheckpointAction::Finish(drained),
        ]
    );
}
