use literstream::storage::LtxFileInfo;
use literstream::sync::retention::{below_txid, l0_expired, snapshot_expired};
use literstream::time::Time;

fn file(level: u32, min: u64, max: u64, created_secs: u64) -> LtxFileInfo {
    LtxFileInfo {
        level,
        min_txid: min,
        max_txid: max,
        size: 1,
        created_at: Some(Time::from_secs(created_secs)),
    }
}

fn at(secs: u64) -> Time {
    Time::from_secs(secs)
}

fn txids(files: &[LtxFileInfo]) -> Vec<u64> {
    files.iter().map(|f| f.max_txid).collect()
}

#[test]
fn snapshot_retention_keeps_newest_and_reports_min_retained() {
    let files = vec![
        file(9, 1, 10, 100),
        file(9, 1, 20, 200),
        file(9, 1, 30, 300),
    ];
    // cutoff 250: files at 100 and 200 expired, 300 retained.
    let (deleted, min_retained) = snapshot_expired(&files, at(250));
    assert_eq!(txids(&deleted), vec![10, 20]);
    assert_eq!(min_retained, 30);

    // cutoff far in the future: all expired, but the newest is still kept.
    let (deleted, _) = snapshot_expired(&files, at(10_000));
    assert_eq!(txids(&deleted), vec![10, 20]);
}

#[test]
fn l0_retention_gates_on_l1_progress_and_time() {
    let files = vec![
        file(0, 1, 1, 100),
        file(0, 2, 2, 110),
        file(0, 3, 3, 120),
        file(0, 4, 4, 130),
    ];
    // No L1 yet -> keep everything.
    assert!(l0_expired(&files, 0, at(10_000)).is_empty());

    // L1 reached txid 2, cutoff far future: only txid 1,2 are folded-in; keep
    // newest is moot here (txid 4 not in the deletable set).
    assert_eq!(txids(&l0_expired(&files, 2, at(10_000))), vec![1, 2]);

    // A too-new file stops the scan (contiguous tail): cutoff 115 means txid 3
    // (t=120) is too new, so we stop before it; txid 1,2 deletable.
    assert_eq!(txids(&l0_expired(&files, 4, at(115))), vec![1, 2]);
}

#[test]
fn l0_retention_keeps_newest_when_all_folded_and_old() {
    let files = vec![file(0, 1, 1, 100), file(0, 2, 2, 110), file(0, 3, 3, 120)];
    // All folded into L1 (max_l1=3) and all old: keep the newest (txid 3).
    assert_eq!(txids(&l0_expired(&files, 3, at(10_000))), vec![1, 2]);
}

#[test]
fn below_txid_keeps_newest() {
    let files = vec![file(1, 1, 5, 0), file(1, 6, 10, 0), file(1, 11, 15, 0)];
    // max_txid 5 and 10 are < 12; 15 is not. Newest (15) untouched anyway.
    assert_eq!(txids(&below_txid(&files, 12)), vec![5, 10]);
    // Everything below the target: keep the newest (15 popped from deletes).
    assert_eq!(txids(&below_txid(&files, 999)), vec![5, 10]);
}

#[test]
fn l0_retention_deletes_only_what_is_older_than_the_cutoff() {
    let files = vec![file(0, 1, 1, 100), file(0, 2, 2, 110), file(0, 3, 3, 120)];
    assert_eq!(txids(&l0_expired(&files, 3, at(110))), vec![1]);
    assert_eq!(txids(&l0_expired(&files, 3, at(111))), vec![1, 2]);

    // A file of unknown age stops the scan.
    let mut unknown = files.clone();
    unknown[1].created_at = None;
    assert_eq!(txids(&l0_expired(&unknown, 3, at(10_000))), vec![1]);
}
