use literstream::sync::SyncError;
use literstream::sync::plan::{greedy_cover, plan_restore, plan_restore_from};

/// `(level, min_txid, max_txid)`.
fn f(level: u32, min: u64, max: u64) -> (u32, u64, u64) {
    (level, min, max)
}

/// A snapshot at 1..=100, then L0 singletons 101..=105.
fn chain() -> Vec<(u32, u64, u64)> {
    vec![
        f(9, 1, 100),
        f(0, 101, 101),
        f(0, 102, 102),
        f(0, 103, 103),
        f(0, 104, 104),
        f(0, 105, 105),
    ]
}

#[test]
fn delta_covers_only_what_changed() {
    let plan = plan_restore_from(&chain(), 102).unwrap();
    assert_eq!(plan, vec![f(0, 103, 103), f(0, 104, 104), f(0, 105, 105)]);
}

#[test]
fn at_head_plans_nothing() {
    // The common warm case: nobody wrote while we were away.
    assert_eq!(plan_restore_from(&chain(), 105).unwrap(), vec![]);
    // A position ahead of the replica is the caller's problem, not a gap.
    assert_eq!(plan_restore_from(&chain(), 200).unwrap(), vec![]);
    assert_eq!(plan_restore_from(&[], 0).unwrap(), vec![]);
}

#[test]
fn first_file_may_straddle_the_local_position() {
    // An L1 file covering 101..=105 begins before where we are.
    let mut files = chain();
    files.push(f(1, 101, 105));
    let plan = plan_restore_from(&files, 103).unwrap();
    assert_eq!(plan, vec![f(1, 101, 105)]);
}

#[test]
fn coarser_levels_win_ties() {
    // Two files reach 105; the compacted one is one GET instead of three.
    let mut files = chain();
    files.push(f(2, 101, 105));
    files.push(f(1, 101, 105));
    assert_eq!(plan_restore_from(&files, 100).unwrap(), vec![f(2, 101, 105)]);
}

#[test]
fn a_hole_in_the_chain_is_a_gap() {
    // 103 was compacted into a coarser level and retention-pruned.
    let files: Vec<_> = chain().into_iter().filter(|f| f.1 != 103).collect();
    assert!(matches!(
        plan_restore_from(&files, 102),
        Err(SyncError::ChainGap { from: 102 })
    ));
    // The local copy predates the oldest retained file: the snapshot starts
    // at 50, so nothing carries what happened before it.
    let pruned = vec![f(9, 50, 100), f(0, 101, 101)];
    assert!(matches!(
        plan_restore_from(&pruned, 20),
        Err(SyncError::ChainGap { from: 20 })
    ));
}

#[test]
fn a_run_that_stops_short_of_head_is_a_gap() {
    // Covers 101..=103, then a hole, then a file at 105 nothing reaches.
    let files = vec![f(0, 101, 101), f(0, 102, 102), f(0, 103, 103), f(0, 105, 105)];
    assert!(matches!(
        plan_restore_from(&files, 100),
        Err(SyncError::ChainGap { from: 100 })
    ));
}

#[test]
fn full_and_delta_planners_share_one_walk() {
    // Planning from 0 over a complete chain gives the same files as a full
    // restore.
    let files = chain();
    assert_eq!(
        plan_restore(&files).unwrap(),
        greedy_cover(&files, 0).0,
        "full plan is the greedy cover from zero"
    );
}
