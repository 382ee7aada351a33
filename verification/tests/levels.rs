use literstream::sync::{CompactionLevel, CompactionLevels, SNAPSHOT_LEVEL};
use literstream::time::{Span, Time};

fn at(secs: u64) -> Time {
    Time::from_secs(secs)
}

#[test]
fn defaults_are_valid_and_ordered() {
    let levels = CompactionLevels::default_levels();
    levels.validate().unwrap();
    assert_eq!(levels.max_level(), 3);
    assert_eq!(
        levels.get(1),
        Some(CompactionLevel { level: 1, interval: Span::from_secs(30) })
    );
    assert_eq!(levels.get(9), None); // snapshot level is not in the list
}

#[test]
fn prev_next_level_walk_the_cascade() {
    let levels = CompactionLevels::default_levels();
    assert_eq!(levels.prev_level(0), None);
    assert_eq!(levels.prev_level(1), Some(0));
    assert_eq!(levels.prev_level(SNAPSHOT_LEVEL), Some(3)); // snapshot pulls from max
    assert_eq!(levels.next_level(0), Some(1));
    assert_eq!(levels.next_level(3), Some(SNAPSHOT_LEVEL)); // max feeds the snapshot
    assert_eq!(levels.next_level(SNAPSHOT_LEVEL), None);
}

#[test]
fn interval_alignment_floors_to_epoch_multiple() {
    let l1 = CompactionLevel { level: 1, interval: Span::from_secs(30) };
    // 95s -> prev aligned at 90s, next at 120s.
    assert_eq!(l1.prev_compaction_at(at(95)), at(90));
    assert_eq!(l1.next_compaction_at(at(95)), at(120));
    // Exact multiple stays put for prev, advances for next.
    assert_eq!(l1.prev_compaction_at(at(120)), at(120));
    assert_eq!(l1.next_compaction_at(at(120)), at(150));
}

#[test]
fn validation_rejects_bad_configs() {
    // Out-of-order level numbers.
    assert!(CompactionLevels::new(vec![
        CompactionLevel { level: 0, interval: Span::zero() },
        CompactionLevel { level: 2, interval: Span::from_secs(1) },
    ])
    .is_err());
    // Interval on level zero.
    assert!(CompactionLevels::new(vec![CompactionLevel {
        level: 0,
        interval: Span::from_secs(1),
    }])
    .is_err());
    // Missing interval on a non-zero level.
    assert!(CompactionLevels::new(vec![
        CompactionLevel { level: 0, interval: Span::zero() },
        CompactionLevel { level: 1, interval: Span::zero() },
    ])
    .is_err());
    // Empty.
    assert!(CompactionLevels::new(vec![]).is_err());
}

#[test]
fn valid_levels_are_the_configured_ones_and_the_snapshot_level() {
    let levels = CompactionLevels::default_levels();
    assert!(levels.is_valid_level(0) && levels.is_valid_level(3));
    assert!(!levels.is_valid_level(4));
    assert!(levels.is_valid_level(SNAPSHOT_LEVEL));
}

#[test]
fn alignment_floors_before_the_epoch_too() {
    let l1 = CompactionLevel { level: 1, interval: Span::from_secs(30) };
    let before = |secs: i128| Time { nanos: -secs * 1_000_000_000 };
    assert_eq!(l1.prev_compaction_at(before(5)), before(30));
    assert_eq!(l1.next_compaction_at(before(5)), Time::epoch());
    assert_eq!(l1.prev_compaction_at(before(30)), before(30));
}
