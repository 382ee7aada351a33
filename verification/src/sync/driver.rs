//! The scheduler: when to sync, checkpoint, compact, snapshot and prune.
//!
//! A tick at an instant `now`:
//! 1. syncs new WAL frames to L0,
//! 2. checkpoints the WAL if it has grown enough, or if enough time has passed,
//! 3. runs a level-to-level compaction once per interval boundary for every
//!    configured level,
//! 4. writes a full snapshot on the snapshot interval and enforces snapshot
//!    retention, and
//! 5. enforces time-based L0 retention.
//!
//! [`Driver::start`] gives the first action; the caller performs it and hands
//! the outcome to [`Driver::step`], which gives the next, until the tick is
//! finished. Where an action fails, the caller drops the tick; what the driver
//! had recorded stays recorded.

use crate::db::{CheckpointMode, CheckpointResult};
use crate::sync::compaction::CompactionInfo;
use crate::sync::level::{CompactionLevel, CompactionLevels, lemma_valid_levels, levels_validity};
use crate::sync::position::SyncOutcome;
use crate::time::{Span, Time, boundary, checked_interval_boundary, lemma_boundary_monotonic};
use vstd::prelude::*;

verus! {

/// Default snapshot cadence, in seconds: a day.
pub const DEFAULT_SNAPSHOT_INTERVAL_SECS: u64 = 86400;

/// Default snapshot retention, in seconds: a day.
pub const DEFAULT_SNAPSHOT_RETENTION_SECS: u64 = 86400;

/// Default L0 retention window, in seconds: five minutes.
pub const DEFAULT_L0_RETENTION_SECS: u64 = 300;

/// Default cadence of the L0 retention check, in seconds.
pub const DEFAULT_L0_RETENTION_CHECK_INTERVAL_SECS: u64 = 15;

/// Default time-based checkpoint interval, in seconds, so that a low-write
/// database still folds its WAL into the database file periodically.
pub const DEFAULT_CHECKPOINT_INTERVAL_SECS: u64 = 60;

/// What a single tick did.
#[derive(Clone, Debug)]
pub struct TickReport {
    /// The sync outcome for the new WAL frames.
    pub synced: SyncOutcome,
    /// The checkpoint that ran, if any.
    pub checkpoint: Option<(CheckpointMode, CheckpointResult)>,
    /// Level-to-level compactions that fired, as `(dst_level, info)`.
    pub compactions: Vec<(u32, CompactionInfo)>,
    /// The snapshot written, if the snapshot interval elapsed.
    pub snapshot: Option<CompactionInfo>,
    /// Number of L0 files pruned by time-based retention.
    pub l0_pruned: usize,
    /// True if a checkpoint raced a write and a catch-up snapshot was taken.
    pub resnapshot_fired: bool,
    /// Bytes of LTX still staged locally awaiting upload.
    pub staged_backlog_bytes: u64,
}

/// What a tick report holds.
#[verifier::ext_equal]
pub struct ReportView {
    pub synced: SyncOutcome,
    pub checkpoint: Option<(CheckpointMode, CheckpointResult)>,
    pub compactions: Seq<(u32, CompactionInfo)>,
    pub snapshot: Option<CompactionInfo>,
    pub l0_pruned: usize,
    pub resnapshot_fired: bool,
    pub staged_backlog_bytes: u64,
}

impl View for TickReport {
    type V = ReportView;

    open spec fn view(&self) -> ReportView {
        ReportView {
            synced: self.synced,
            checkpoint: self.checkpoint,
            compactions: self.compactions@,
            snapshot: self.snapshot,
            l0_pruned: self.l0_pruned,
            resnapshot_fired: self.resnapshot_fired,
            staged_backlog_bytes: self.staged_backlog_bytes,
        }
    }
}

/// What to do next in a tick.
#[derive(Clone, Copy, Debug, PartialEq, Eq)]
pub enum TickAction {
    /// Replicate new frames.
    Sync,
    /// Checkpoint if the WAL has grown enough.
    CheckpointIfNeeded,
    /// Count the frames in the WAL file.
    CountWalFrames,
    /// Checkpoint now.
    CheckpointNow(CheckpointMode),
    /// Compact into this level.
    CompactLevel(u32),
    /// Write a full snapshot.
    Snapshot,
    /// Delete old snapshots, then prune the levels up to `max_level`.
    EnforceSnapshotRetention { retention: Span, max_level: u32 },
    /// Delete old L0 files.
    EnforceL0Retention { retention: Span },
    /// Collect the count of catch-up snapshots and the staged backlog.
    Totals,
    /// The tick is over, and its report complete.
    Finish,
}

/// What the caller reports of an action.
#[derive(Clone, Copy, Debug, PartialEq, Eq)]
pub enum TickEvent {
    Synced(SyncOutcome),
    Checkpointed(Option<(CheckpointMode, CheckpointResult)>),
    WalFrames(u64),
    CheckpointedNow(CheckpointMode, CheckpointResult),
    Compacted(Option<CompactionInfo>),
    Snapshotted(Option<CompactionInfo>),
    SnapshotRetentionEnforced,
    L0Pruned(usize),
    Totals { resnapshots: u64, staged_backlog_bytes: u64 },
}

/// What a tick waits for.
#[derive(Clone, Copy, Debug, PartialEq, Eq, Structural)]
pub enum TickStage {
    Sync,
    Checkpoint,
    Frames,
    TimedCheckpoint,
    Compaction(u32),
    Snapshot,
    SnapshotRetention,
    L0Retention,
    Totals,
    Done,
}

/// A tick in progress.
#[derive(Debug)]
pub struct Tick {
    pub now: Time,
    pub stage: TickStage,
    pub report: TickReport,
}

/// A tick in progress.
#[verifier::ext_equal]
pub struct TickView {
    pub now: Time,
    pub stage: TickStage,
    pub report: ReportView,
}

impl View for Tick {
    type V = TickView;

    open spec fn view(&self) -> TickView {
        TickView { now: self.now, stage: self.stage, report: self.report@ }
    }
}

/// The settings and the memory of a driver.
#[verifier::ext_equal]
pub struct DriverView {
    pub levels: Seq<CompactionLevel>,
    pub snapshot_interval: Span,
    pub snapshot_retention: Span,
    pub l0_retention: Span,
    pub l0_retention_interval: Span,
    pub checkpoint_interval: Span,
    /// The last interval boundary each level was compacted at.
    pub last_compaction: Seq<Time>,
    /// The last interval boundary a snapshot was taken at.
    pub last_snapshot: Time,
    /// The last interval boundary L0 retention was enforced at.
    pub last_l0_retention: Time,
    /// When the last checkpoint ran.
    pub last_checkpoint: Time,
    /// Whether new frames have been synced since the last checkpoint.
    pub synced_since_checkpoint: bool,
    pub prev_resnapshots: u64,
}

/// The event is one that the stage waits for.
pub open spec fn expects(stage: TickStage, event: TickEvent) -> bool {
    match stage {
        TickStage::Sync => event is Synced,
        TickStage::Checkpoint => event is Checkpointed,
        TickStage::Frames => event is WalFrames,
        TickStage::TimedCheckpoint => event is CheckpointedNow,
        TickStage::Compaction(_) => event is Compacted,
        TickStage::Snapshot => event is Snapshotted,
        TickStage::SnapshotRetention => event is SnapshotRetentionEnforced,
        TickStage::L0Retention => event is L0Pruned,
        TickStage::Totals => event is Totals,
        TickStage::Done => false,
    }
}

/// A boundary of `interval` has passed since `last`.
pub open spec fn due(now: Time, interval: Span, last: Time) -> bool {
    boundary(now.nanos as int, interval.nanos as nat) > last.nanos
}

/// The boundary of `interval` at `now`.
pub open spec fn boundary_time(now: Time, interval: Span) -> Time {
    Time { nanos: boundary(now.nanos as int, interval.nanos as nat) as i128 }
}

/// The boundary of `interval` at `now`, if it has passed since `last`.
fn boundary_since(now: Time, interval: Span, last: Time) -> (r: Option<Time>)
    ensures
        r == (if due(now, interval, last) {
            Some(boundary_time(now, interval))
        } else {
            None
        }),
{
    match checked_interval_boundary(now, interval) {
        Some(b) => {
            if last.before(b) {
                Some(b)
            } else {
                None
            }
        },
        None => None,
    }
}

pub open spec fn to_totals(d: DriverView, t: TickView) -> (DriverView, TickView, TickAction) {
    (d, TickView { stage: TickStage::Totals, ..t }, TickAction::Totals)
}

/// L0 retention, if it is enabled and due.
pub open spec fn to_l0_retention(d: DriverView, t: TickView) -> (DriverView, TickView, TickAction) {
    if d.l0_retention.nanos != 0 && d.l0_retention_interval.nanos != 0 && due(
        t.now,
        d.l0_retention_interval,
        d.last_l0_retention,
    ) {
        (
            DriverView {
                last_l0_retention: boundary_time(t.now, d.l0_retention_interval),
                ..d
            },
            TickView { stage: TickStage::L0Retention, ..t },
            TickAction::EnforceL0Retention { retention: d.l0_retention },
        )
    } else {
        to_totals(d, t)
    }
}

/// The snapshot, if it is enabled and due.
pub open spec fn to_snapshot(d: DriverView, t: TickView) -> (DriverView, TickView, TickAction) {
    if d.snapshot_interval.nanos != 0 && due(t.now, d.snapshot_interval, d.last_snapshot) {
        (
            DriverView { last_snapshot: boundary_time(t.now, d.snapshot_interval), ..d },
            TickView { stage: TickStage::Snapshot, ..t },
            TickAction::Snapshot,
        )
    } else {
        to_l0_retention(d, t)
    }
}

/// The first compaction that is due from level `from` on; then the snapshot.
pub open spec fn to_compaction(d: DriverView, t: TickView, from: nat) -> (
    DriverView,
    TickView,
    TickAction,
)
    decreases d.levels.len() - from,
{
    if from >= d.levels.len() {
        to_snapshot(d, t)
    } else if from > 0 && due(
        t.now,
        d.levels[from as int].interval,
        d.last_compaction[from as int],
    ) {
        (
            DriverView {
                last_compaction: d.last_compaction.update(
                    from as int,
                    boundary_time(t.now, d.levels[from as int].interval),
                ),
                ..d
            },
            TickView { stage: TickStage::Compaction(from as u32), ..t },
            TickAction::CompactLevel(from as u32),
        )
    } else {
        to_compaction(d, t, from + 1)
    }
}

/// The compactions, after noting the checkpoint that ran, if any.
pub open spec fn after_checkpoint(d: DriverView, t: TickView) -> (DriverView, TickView, TickAction) {
    if t.report.checkpoint is Some {
        to_compaction(
            DriverView { last_checkpoint: t.now, synced_since_checkpoint: false, ..d },
            t,
            0,
        )
    } else {
        to_compaction(d, t, 0)
    }
}

/// Whether a checkpoint is due by time: something was synced since the last one,
/// the WAL holds frames, and the interval has passed.
pub open spec fn timed_checkpoint_due(d: DriverView, now: Time, frames: u64) -> bool {
    &&& d.checkpoint_interval.nanos != 0
    &&& d.synced_since_checkpoint
    &&& frames > 0
    &&& now.nanos >= d.last_checkpoint.nanos
    &&& now.nanos - d.last_checkpoint.nanos >= d.checkpoint_interval.nanos
}

/// What a driver does on an event of a tick.
pub open spec fn step_of(d: DriverView, t: TickView, event: TickEvent) -> (
    DriverView,
    TickView,
    TickAction,
) {
    match (t.stage, event) {
        (TickStage::Sync, TickEvent::Synced(o)) => (
            DriverView {
                synced_since_checkpoint: d.synced_since_checkpoint || o != SyncOutcome::Skipped,
                ..d
            },
            TickView {
                stage: TickStage::Checkpoint,
                report: ReportView { synced: o, ..t.report },
                ..t
            },
            TickAction::CheckpointIfNeeded,
        ),
        (TickStage::Checkpoint, TickEvent::Checkpointed(c)) => {
            let t2 = TickView { report: ReportView { checkpoint: c, ..t.report }, ..t };
            if c is None && d.checkpoint_interval.nanos != 0 && d.synced_since_checkpoint {
                (d, TickView { stage: TickStage::Frames, ..t2 }, TickAction::CountWalFrames)
            } else {
                after_checkpoint(d, t2)
            }
        },
        (TickStage::Frames, TickEvent::WalFrames(n)) => if timed_checkpoint_due(d, t.now, n) {
            (
                d,
                TickView { stage: TickStage::TimedCheckpoint, ..t },
                TickAction::CheckpointNow(CheckpointMode::Passive),
            )
        } else {
            after_checkpoint(d, t)
        },
        (TickStage::TimedCheckpoint, TickEvent::CheckpointedNow(m, r)) => after_checkpoint(
            d,
            TickView { report: ReportView { checkpoint: Some((m, r)), ..t.report }, ..t },
        ),
        (TickStage::Compaction(l), TickEvent::Compacted(i)) => {
            let t2 = match i {
                Some(info) => TickView {
                    report: ReportView {
                        compactions: t.report.compactions.push((l, info)),
                        ..t.report
                    },
                    ..t
                },
                None => t,
            };
            to_compaction(d, t2, (l + 1) as nat)
        },
        (TickStage::Snapshot, TickEvent::Snapshotted(i)) => (
            d,
            TickView {
                stage: TickStage::SnapshotRetention,
                report: ReportView { snapshot: i, ..t.report },
                ..t
            },
            TickAction::EnforceSnapshotRetention {
                retention: d.snapshot_retention,
                max_level: (d.levels.len() - 1) as u32,
            },
        ),
        (TickStage::SnapshotRetention, TickEvent::SnapshotRetentionEnforced) => to_l0_retention(
            d,
            t,
        ),
        (TickStage::L0Retention, TickEvent::L0Pruned(n)) => to_totals(
            d,
            TickView { report: ReportView { l0_pruned: n, ..t.report }, ..t },
        ),
        (TickStage::Totals, TickEvent::Totals { resnapshots, staged_backlog_bytes }) => (
            DriverView { prev_resnapshots: resnapshots, ..d },
            TickView {
                stage: TickStage::Done,
                report: ReportView {
                    resnapshot_fired: resnapshots > d.prev_resnapshots,
                    staged_backlog_bytes,
                    ..t.report
                },
                ..t
            },
            TickAction::Finish,
        ),
        _ => (d, t, TickAction::Finish),
    }
}

/// Schedules continuous replication, tiered compaction and retention.
pub struct Driver {
    levels: CompactionLevels,
    snapshot_interval: Span,
    snapshot_retention: Span,
    l0_retention: Span,
    l0_retention_interval: Span,
    checkpoint_interval: Span,
    last_compaction: Vec<Time>,
    last_snapshot: Time,
    last_l0_retention: Time,
    last_checkpoint: Time,
    synced_since_checkpoint: bool,
    prev_resnapshots: u64,
}

impl View for Driver {
    type V = DriverView;

    closed spec fn view(&self) -> DriverView {
        DriverView {
            levels: self.levels@,
            snapshot_interval: self.snapshot_interval,
            snapshot_retention: self.snapshot_retention,
            l0_retention: self.l0_retention,
            l0_retention_interval: self.l0_retention_interval,
            checkpoint_interval: self.checkpoint_interval,
            last_compaction: self.last_compaction@,
            last_snapshot: self.last_snapshot,
            last_l0_retention: self.last_l0_retention,
            last_checkpoint: self.last_checkpoint,
            synced_since_checkpoint: self.synced_since_checkpoint,
            prev_resnapshots: self.prev_resnapshots,
        }
    }
}

/// What always holds of a driver: its levels are valid, and it remembers a
/// boundary for each.
pub open spec fn driver_wf(d: DriverView) -> bool {
    &&& levels_validity(d.levels) is Ok
    &&& d.last_compaction.len() == d.levels.len()
}

/// The driver that [`Driver::new`] makes: the default windows, and nothing done
/// yet.
pub open spec fn fresh_driver(levels: Seq<CompactionLevel>) -> DriverView {
    DriverView {
        levels,
        snapshot_interval: Span { nanos: 86_400_000_000_000 },
        snapshot_retention: Span { nanos: 86_400_000_000_000 },
        l0_retention: Span { nanos: 300_000_000_000 },
        l0_retention_interval: Span { nanos: 15_000_000_000 },
        checkpoint_interval: Span { nanos: 60_000_000_000 },
        last_compaction: Seq::new(levels.len(), |i: int| Time { nanos: 0 }),
        last_snapshot: Time { nanos: 0 },
        last_l0_retention: Time { nanos: 0 },
        last_checkpoint: Time { nanos: 0 },
        synced_since_checkpoint: false,
        prev_resnapshots: 0,
    }
}

impl Driver {
    /// Builds a driver with the given levels and the default windows. Use the
    /// `with_*` setters to override them.
    pub fn new(levels: CompactionLevels) -> (d: Driver)
        ensures
            d@ == fresh_driver(levels@),
            driver_wf(d@),
    {
        let s = levels.as_slice();
        let n: usize = s.len();
        let mut last: Vec<Time> = Vec::new();
        let mut i: usize = 0;
        while i < n
            invariant
                i <= n,
                last@ =~= Seq::new(i as nat, |k: int| Time { nanos: 0 }),
            decreases n - i,
        {
            last.push(Time::epoch());
            i += 1;
        }
        Driver {
            levels,
            snapshot_interval: Span::from_secs(DEFAULT_SNAPSHOT_INTERVAL_SECS),
            snapshot_retention: Span::from_secs(DEFAULT_SNAPSHOT_RETENTION_SECS),
            l0_retention: Span::from_secs(DEFAULT_L0_RETENTION_SECS),
            l0_retention_interval: Span::from_secs(DEFAULT_L0_RETENTION_CHECK_INTERVAL_SECS),
            checkpoint_interval: Span::from_secs(DEFAULT_CHECKPOINT_INTERVAL_SECS),
            last_compaction: last,
            last_snapshot: Time::epoch(),
            last_l0_retention: Time::epoch(),
            last_checkpoint: Time::epoch(),
            synced_since_checkpoint: false,
            prev_resnapshots: 0,
        }
    }

    /// Sets the time-based checkpoint interval (0 disables it).
    pub fn with_checkpoint_interval(self, d: Span) -> (r: Driver)
        ensures
            r@ == (DriverView { checkpoint_interval: d, ..self@ }),
    {
        let mut r = self;
        r.checkpoint_interval = d;
        r
    }

    /// Sets how often a full snapshot is written (0 disables snapshots).
    pub fn with_snapshot_interval(self, d: Span) -> (r: Driver)
        ensures
            r@ == (DriverView { snapshot_interval: d, ..self@ }),
    {
        let mut r = self;
        r.snapshot_interval = d;
        r
    }

    /// Sets how long snapshots are retained.
    pub fn with_snapshot_retention(self, d: Span) -> (r: Driver)
        ensures
            r@ == (DriverView { snapshot_retention: d, ..self@ }),
    {
        let mut r = self;
        r.snapshot_retention = d;
        r
    }

    /// Sets how long L0 files are retained after being folded into L1 (0
    /// disables time-based L0 retention).
    pub fn with_l0_retention(self, d: Span) -> (r: Driver)
        ensures
            r@ == (DriverView { l0_retention: d, ..self@ }),
    {
        let mut r = self;
        r.l0_retention = d;
        r
    }

    /// Sets how often the L0 retention check runs.
    pub fn with_l0_retention_interval(self, d: Span) -> (r: Driver)
        ensures
            r@ == (DriverView { l0_retention_interval: d, ..self@ }),
    {
        let mut r = self;
        r.l0_retention_interval = d;
        r
    }

    /// Starts a tick at the instant `now`. Its first action is to sync.
    pub fn start(&self, now: Time) -> (r: (Tick, TickAction))
        ensures
            r.0@ == fresh_tick(now),
            r.1 == TickAction::Sync,
    {
        let report = TickReport {
            synced: SyncOutcome::Skipped,
            checkpoint: None,
            compactions: Vec::new(),
            snapshot: None,
            l0_pruned: 0,
            resnapshot_fired: false,
            staged_backlog_bytes: 0,
        };
        let t = Tick { now, stage: TickStage::Sync, report };
        assert(t@.report.compactions =~= Seq::empty());
        (t, TickAction::Sync)
    }

    fn l0_retention_step(&mut self, t: &mut Tick) -> (a: TickAction)
        ensures
            (final(self)@, final(t)@, a) == to_l0_retention(old(self)@, old(t)@),
    {
        if !self.l0_retention.is_zero() && !self.l0_retention_interval.is_zero() {
            match boundary_since(t.now, self.l0_retention_interval, self.last_l0_retention) {
                Some(b) => {
                    self.last_l0_retention = b;
                    t.stage = TickStage::L0Retention;
                    return TickAction::EnforceL0Retention { retention: self.l0_retention };
                },
                None => {},
            }
        }
        t.stage = TickStage::Totals;
        TickAction::Totals
    }

    fn snapshot_step(&mut self, t: &mut Tick) -> (a: TickAction)
        ensures
            (final(self)@, final(t)@, a) == to_snapshot(old(self)@, old(t)@),
    {
        if !self.snapshot_interval.is_zero() {
            match boundary_since(t.now, self.snapshot_interval, self.last_snapshot) {
                Some(b) => {
                    self.last_snapshot = b;
                    t.stage = TickStage::Snapshot;
                    return TickAction::Snapshot;
                },
                None => {},
            }
        }
        self.l0_retention_step(t)
    }

    fn compaction_step(&mut self, t: &mut Tick, from: u32) -> (a: TickAction)
        requires
            driver_wf(old(self)@),
        ensures
            (final(self)@, final(t)@, a) == to_compaction(old(self)@, old(t)@, from as nat),
    {
        let n: usize = self.levels.as_slice().len();
        let mut i: usize = from as usize;
        proof {
            lemma_valid_levels(self.levels@, 0);
        }
        while i < n
            invariant
                from <= i,
                n == self@.levels.len(),
                n <= 9,
                driver_wf(self@),
                *self == *old(self),
                *t == *old(t),
                to_compaction(self@, t@, i as nat) == to_compaction(
                    old(self)@,
                    old(t)@,
                    from as nat,
                ),
            decreases n - i,
        {
            if i > 0 {
                let level = self.levels.as_slice()[i];
                match boundary_since(t.now, level.interval, self.last_compaction[i]) {
                    Some(b) => {
                        self.last_compaction.set(i, b);
                        t.stage = TickStage::Compaction(i as u32);
                        return TickAction::CompactLevel(i as u32);
                    },
                    None => {},
                }
            }
            i += 1;
        }
        self.snapshot_step(t)
    }

    fn checkpoint_settled(&mut self, t: &mut Tick) -> (a: TickAction)
        requires
            driver_wf(old(self)@),
        ensures
            (final(self)@, final(t)@, a) == after_checkpoint(old(self)@, old(t)@),
    {
        if t.report.checkpoint.is_some() {
            self.last_checkpoint = t.now;
            self.synced_since_checkpoint = false;
        }
        self.compaction_step(t, 0)
    }

    /// Records the outcome of an action and gives the next one.
    pub fn step(&mut self, t: &mut Tick, event: TickEvent) -> (a: TickAction)
        requires
            driver_wf(old(self)@),
            expects(old(t)@.stage, event),
            old(t)@.stage matches TickStage::Compaction(l) ==> l < old(self)@.levels.len(),
        ensures
            driver_wf(final(self)@),
            (final(self)@, final(t)@, a) == step_of(old(self)@, old(t)@, event),
            final(t)@.stage matches TickStage::Compaction(l) ==> l < final(self)@.levels.len(),
    {
        proof {
            lemma_valid_levels(self@.levels, 0);
            lemma_step_keeps(self@, t@, event);
        }
        match (t.stage, event) {
            (TickStage::Sync, TickEvent::Synced(o)) => {
                let skipped: bool = match o {
                    SyncOutcome::Skipped => true,
                    _ => false,
                };
                if !skipped {
                    self.synced_since_checkpoint = true;
                }
                t.report.synced = o;
                t.stage = TickStage::Checkpoint;
                TickAction::CheckpointIfNeeded
            },
            (TickStage::Checkpoint, TickEvent::Checkpointed(c)) => {
                t.report.checkpoint = c;
                if c.is_none() && !self.checkpoint_interval.is_zero()
                    && self.synced_since_checkpoint {
                    t.stage = TickStage::Frames;
                    TickAction::CountWalFrames
                } else {
                    self.checkpoint_settled(t)
                }
            },
            (TickStage::Frames, TickEvent::WalFrames(n)) => {
                let elapsed: bool = match t.now.duration_since(self.last_checkpoint) {
                    Some(d) => d.nanos >= self.checkpoint_interval.nanos,
                    None => false,
                };
                if !self.checkpoint_interval.is_zero() && self.synced_since_checkpoint && n > 0
                    && elapsed {
                    t.stage = TickStage::TimedCheckpoint;
                    TickAction::CheckpointNow(CheckpointMode::Passive)
                } else {
                    self.checkpoint_settled(t)
                }
            },
            (TickStage::TimedCheckpoint, TickEvent::CheckpointedNow(m, r)) => {
                t.report.checkpoint = Some((m, r));
                self.checkpoint_settled(t)
            },
            (TickStage::Compaction(l), TickEvent::Compacted(i)) => {
                match i {
                    Some(info) => {
                        t.report.compactions.push((l, info));
                    },
                    None => {},
                }
                self.compaction_step(t, l + 1)
            },
            (TickStage::Snapshot, TickEvent::Snapshotted(i)) => {
                t.report.snapshot = i;
                t.stage = TickStage::SnapshotRetention;
                TickAction::EnforceSnapshotRetention {
                    retention: self.snapshot_retention,
                    max_level: self.levels.max_level(),
                }
            },
            (TickStage::SnapshotRetention, TickEvent::SnapshotRetentionEnforced) => {
                self.l0_retention_step(t)
            },
            (TickStage::L0Retention, TickEvent::L0Pruned(n)) => {
                t.report.l0_pruned = n;
                t.stage = TickStage::Totals;
                TickAction::Totals
            },
            (TickStage::Totals, TickEvent::Totals { resnapshots, staged_backlog_bytes }) => {
                t.report.resnapshot_fired = resnapshots > self.prev_resnapshots;
                self.prev_resnapshots = resnapshots;
                t.report.staged_backlog_bytes = staged_backlog_bytes;
                t.stage = TickStage::Done;
                TickAction::Finish
            },
            _ => TickAction::Finish,
        }
    }
}

proof fn lemma_compaction_keeps(d: DriverView, t: TickView, from: nat)
    requires
        driver_wf(d),
    ensures
        driver_wf(to_compaction(d, t, from).0),
        to_compaction(d, t, from).0.levels == d.levels,
        to_compaction(d, t, from).1.stage matches TickStage::Compaction(l) ==> from <= l
            < d.levels.len() && l > 0,
    decreases d.levels.len() - from,
{
    lemma_valid_levels(d.levels, 0);
    if from < d.levels.len() {
        lemma_compaction_keeps(d, t, from + 1);
    }
}

proof fn lemma_step_keeps(d: DriverView, t: TickView, event: TickEvent)
    requires
        driver_wf(d),
        expects(t.stage, event),
        t.stage matches TickStage::Compaction(l) ==> l < d.levels.len(),
    ensures
        driver_wf(step_of(d, t, event).0),
        step_of(d, t, event).1.stage matches TickStage::Compaction(l) ==> l < step_of(
            d,
            t,
            event,
        ).0.levels.len(),
{
    match (t.stage, event) {
        (TickStage::Checkpoint, TickEvent::Checkpointed(c)) => {
            let t2 = TickView { report: ReportView { checkpoint: c, ..t.report }, ..t };
            lemma_compaction_keeps(d, t2, 0);
            lemma_compaction_keeps(
                DriverView { last_checkpoint: t.now, synced_since_checkpoint: false, ..d },
                t2,
                0,
            );
        },
        (TickStage::Frames, TickEvent::WalFrames(n)) => {
            lemma_compaction_keeps(d, t, 0);
            lemma_compaction_keeps(
                DriverView { last_checkpoint: t.now, synced_since_checkpoint: false, ..d },
                t,
                0,
            );
        },
        (TickStage::TimedCheckpoint, TickEvent::CheckpointedNow(m, r)) => {
            let t2 = TickView {
                report: ReportView { checkpoint: Some((m, r)), ..t.report },
                ..t
            };
            lemma_compaction_keeps(
                DriverView { last_checkpoint: t.now, synced_since_checkpoint: false, ..d },
                t2,
                0,
            );
        },
        (TickStage::Compaction(l), TickEvent::Compacted(i)) => {
            let t2 = match i {
                Some(info) => TickView {
                    report: ReportView {
                        compactions: t.report.compactions.push((l, info)),
                        ..t.report
                    },
                    ..t
                },
                None => t,
            };
            lemma_compaction_keeps(d, t2, (l + 1) as nat);
        },
        _ => {},
    }
}

/// A compaction fires once per boundary: it fires only where a boundary has
/// passed since the last one, and having fired, it does not fire again at any
/// instant before the next boundary.
pub proof fn lemma_compaction_once_per_boundary(
    d: DriverView,
    t: TickView,
    from: nat,
    level: u32,
    later: Time,
)
    requires
        driver_wf(d),
        to_compaction(d, t, from).2 == TickAction::CompactLevel(level),
        t.now.nanos <= later.nanos,
        later.nanos < boundary(t.now.nanos as int, d.levels[level as int].interval.nanos as nat)
            + d.levels[level as int].interval.nanos,
    ensures
        due(t.now, d.levels[level as int].interval, d.last_compaction[level as int]),
        !due(
            later,
            d.levels[level as int].interval,
            to_compaction(d, t, from).0.last_compaction[level as int],
        ),
    decreases d.levels.len() - from,
{
    lemma_valid_levels(d.levels, 0);
    if from < d.levels.len() {
        if from > 0 && due(
            t.now,
            d.levels[from as int].interval,
            d.last_compaction[from as int],
        ) {
            lemma_valid_levels(d.levels, from as int);
            lemma_boundary_monotonic(
                t.now.nanos as int,
                later.nanos as int,
                d.levels[from as int].interval.nanos as nat,
            );
            crate::time::lemma_boundary(
                t.now.nanos as int,
                d.levels[from as int].interval.nanos as nat,
            );
        } else {
            lemma_compaction_once_per_boundary(d, t, from + 1, level, later);
        }
    }
}

/// A checkpoint by time runs only where no other checkpoint ran in this tick,
/// something was synced since the last one, and the interval has passed.
pub proof fn lemma_timed_checkpoint(d: DriverView, t: TickView, event: TickEvent)
    requires
        expects(t.stage, event),
        step_of(d, t, event).2 is CheckpointNow,
    ensures
        t.stage == TickStage::Frames,
        d.checkpoint_interval.nanos > 0,
        d.synced_since_checkpoint,
        t.now.nanos - d.last_checkpoint.nanos >= d.checkpoint_interval.nanos,
{
    lemma_no_checkpoint_from_compaction(d, t, 0);
    match (t.stage, event) {
        (TickStage::Checkpoint, TickEvent::Checkpointed(c)) => {
            let t2 = TickView { report: ReportView { checkpoint: c, ..t.report }, ..t };
            lemma_no_checkpoint_from_compaction(d, t2, 0);
            lemma_no_checkpoint_from_compaction(
                DriverView { last_checkpoint: t.now, synced_since_checkpoint: false, ..d },
                t2,
                0,
            );
        },
        (TickStage::Frames, TickEvent::WalFrames(n)) => {
            lemma_no_checkpoint_from_compaction(
                DriverView { last_checkpoint: t.now, synced_since_checkpoint: false, ..d },
                t,
                0,
            );
        },
        (TickStage::TimedCheckpoint, TickEvent::CheckpointedNow(m, r)) => {
            let t2 = TickView {
                report: ReportView { checkpoint: Some((m, r)), ..t.report },
                ..t
            };
            lemma_no_checkpoint_from_compaction(
                DriverView { last_checkpoint: t.now, synced_since_checkpoint: false, ..d },
                t2,
                0,
            );
        },
        (TickStage::Compaction(l), TickEvent::Compacted(i)) => {
            let t2 = match i {
                Some(info) => TickView {
                    report: ReportView {
                        compactions: t.report.compactions.push((l, info)),
                        ..t.report
                    },
                    ..t
                },
                None => t,
            };
            lemma_no_checkpoint_from_compaction(d, t2, (l + 1) as nat);
        },
        _ => {},
    }
}

proof fn lemma_no_checkpoint_from_compaction(d: DriverView, t: TickView, from: nat)
    ensures
        !(to_compaction(d, t, from).2 is CheckpointNow),
    decreases d.levels.len() - from,
{
    if from < d.levels.len() {
        lemma_no_checkpoint_from_compaction(d, t, from + 1);
    }
}

/// Having run at `now`, nothing on this interval is due again before the next
/// boundary.
proof fn lemma_not_due_again(now: Time, later: Time, interval: Span)
    requires
        interval.nanos > 0,
        now.nanos <= later.nanos,
        later.nanos < boundary(now.nanos as int, interval.nanos as nat) + interval.nanos,
    ensures
        !due(later, interval, boundary_time(now, interval)),
{
    lemma_boundary_monotonic(now.nanos as int, later.nanos as int, interval.nanos as nat);
    crate::time::lemma_boundary(now.nanos as int, interval.nanos as nat);
}

/// A snapshot is taken once per boundary, as a compaction is.
pub proof fn lemma_snapshot_once_per_boundary(d: DriverView, t: TickView, later: Time)
    requires
        to_snapshot(d, t).2 == TickAction::Snapshot,
        t.now.nanos <= later.nanos,
        later.nanos < boundary(t.now.nanos as int, d.snapshot_interval.nanos as nat)
            + d.snapshot_interval.nanos,
    ensures
        due(t.now, d.snapshot_interval, d.last_snapshot),
        to_snapshot(to_snapshot(d, t).0, TickView { now: later, ..t }).2 != TickAction::Snapshot,
{
    lemma_not_due_again(t.now, later, d.snapshot_interval);
}

/// L0 retention is enforced once per boundary, as a compaction is.
pub proof fn lemma_l0_retention_once_per_boundary(d: DriverView, t: TickView, later: Time)
    requires
        to_l0_retention(d, t).2 is EnforceL0Retention,
        t.now.nanos <= later.nanos,
        later.nanos < boundary(t.now.nanos as int, d.l0_retention_interval.nanos as nat)
            + d.l0_retention_interval.nanos,
    ensures
        due(t.now, d.l0_retention_interval, d.last_l0_retention),
        !(to_l0_retention(to_l0_retention(d, t).0, TickView { now: later, ..t }).2
            is EnforceL0Retention),
{
    lemma_not_due_again(t.now, later, d.l0_retention_interval);
}

/// Zero disables: with a zero snapshot interval no snapshot is taken, and with a
/// zero L0 retention window or interval no L0 file is pruned.
pub proof fn lemma_zero_disables(d: DriverView, t: TickView, from: nat)
    ensures
        d.snapshot_interval.nanos == 0 ==> to_compaction(d, t, from).2 != TickAction::Snapshot,
        (d.l0_retention.nanos == 0 || d.l0_retention_interval.nanos == 0) ==> !(to_compaction(
            d,
            t,
            from,
        ).2 is EnforceL0Retention) && !(to_l0_retention(d, t).2 is EnforceL0Retention),
    decreases d.levels.len() - from,
{
    if from < d.levels.len() {
        lemma_zero_disables(d, t, from + 1);
    }
}

// --- What holds over whole ticks ---

/// A tick that has just started at `now`.
pub open spec fn fresh_tick(now: Time) -> TickView {
    TickView {
        now,
        stage: TickStage::Sync,
        report: ReportView {
            synced: SyncOutcome::Skipped,
            checkpoint: None,
            compactions: Seq::empty(),
            snapshot: None,
            l0_pruned: 0,
            resnapshot_fired: false,
            staged_backlog_bytes: 0,
        },
    }
}

/// A tick at `now` after the first `n` events, and the action that is then due.
pub open spec fn tick_run(d: DriverView, now: Time, events: Seq<TickEvent>, n: nat) -> (
    DriverView,
    TickView,
    TickAction,
)
    decreases n,
{
    if n == 0 {
        (d, fresh_tick(now), TickAction::Sync)
    } else {
        let (d1, t1, _) = tick_run(d, now, events, (n - 1) as nat);
        step_of(d1, t1, events[n - 1])
    }
}

/// Every event is one that the tick waits for when it comes.
pub open spec fn is_tick(d: DriverView, now: Time, events: Seq<TickEvent>) -> bool {
    forall|i: int|
        0 <= i < events.len() ==> expects(
            (#[trigger] tick_run(d, now, events, i as nat)).1.stage,
            events[i],
        )
}

/// `b` has the levels and intervals of `a`, and forgets none of the boundaries that
/// `a` remembers.
pub open spec fn moves_on(a: DriverView, b: DriverView) -> bool {
    &&& b.levels == a.levels
    &&& b.last_compaction.len() == a.last_compaction.len()
    &&& b.snapshot_interval == a.snapshot_interval
    &&& b.l0_retention == a.l0_retention
    &&& b.l0_retention_interval == a.l0_retention_interval
    &&& forall|l: int|
        0 <= l < a.levels.len() ==> a.last_compaction[l].nanos <= (
        #[trigger] b.last_compaction[l]).nanos
    &&& a.last_snapshot.nanos <= b.last_snapshot.nanos
    &&& a.last_l0_retention.nanos <= b.last_l0_retention.nanos
}

/// The action that leads from `a` to `b` at `now` is due, and noted.
pub open spec fn noted(a: DriverView, b: DriverView, now: Time, action: TickAction) -> bool {
    match action {
        TickAction::CompactLevel(l) => {
            &&& 0 < l < a.levels.len()
            &&& due(now, a.levels[l as int].interval, a.last_compaction[l as int])
            &&& b.last_compaction[l as int] == boundary_time(now, a.levels[l as int].interval)
        },
        TickAction::Snapshot => {
            &&& a.snapshot_interval.nanos != 0
            &&& due(now, a.snapshot_interval, a.last_snapshot)
            &&& b.last_snapshot == boundary_time(now, a.snapshot_interval)
        },
        TickAction::EnforceL0Retention { .. } => {
            &&& a.l0_retention.nanos != 0
            &&& a.l0_retention_interval.nanos != 0
            &&& due(now, a.l0_retention_interval, a.last_l0_retention)
            &&& b.last_l0_retention == boundary_time(now, a.l0_retention_interval)
        },
        _ => true,
    }
}

proof fn lemma_boundary_time(now: Time, interval: Span, last: Time)
    requires
        due(now, interval, last),
    ensures
        boundary_time(now, interval).nanos == boundary(now.nanos as int, interval.nanos as nat),
        last.nanos < boundary_time(now, interval).nanos,
{
    if interval.nanos > 0 {
        crate::time::lemma_boundary(now.nanos as int, interval.nanos as nat);
    }
}

proof fn lemma_l0_step_moves_on(d: DriverView, t: TickView)
    ensures
        moves_on(d, to_l0_retention(d, t).0),
        noted(d, to_l0_retention(d, t).0, t.now, to_l0_retention(d, t).2),
        to_l0_retention(d, t).1.now == t.now,
        to_l0_retention(d, t).1.report == t.report,
        after_compactions(to_l0_retention(d, t).1.stage),
{
    if due(t.now, d.l0_retention_interval, d.last_l0_retention) {
        lemma_boundary_time(t.now, d.l0_retention_interval, d.last_l0_retention);
    }
}

/// The compactions of the tick are over.
pub open spec fn after_compactions(stage: TickStage) -> bool {
    match stage {
        TickStage::Snapshot => true,
        TickStage::SnapshotRetention => true,
        TickStage::L0Retention => true,
        TickStage::Totals => true,
        TickStage::Done => true,
        _ => false,
    }
}

proof fn lemma_compaction_step_moves_on(d: DriverView, t: TickView, from: nat)
    requires
        driver_wf(d),
    ensures
        ({
            let (d2, t2, a) = to_compaction(d, t, from);
            &&& moves_on(d, d2)
            &&& noted(d, d2, t.now, a)
            &&& t2.now == t.now
            &&& t2.report == t.report
            &&& (t2.stage matches TickStage::Compaction(l) && from <= l) || after_compactions(
                t2.stage,
            )
        }),
    decreases d.levels.len() - from,
{
    lemma_valid_levels(d.levels, 0);
    if from >= d.levels.len() {
        if due(t.now, d.snapshot_interval, d.last_snapshot) {
            lemma_boundary_time(t.now, d.snapshot_interval, d.last_snapshot);
        }
        lemma_l0_step_moves_on(d, t);
    } else if from > 0 && due(
        t.now,
        d.levels[from as int].interval,
        d.last_compaction[from as int],
    ) {
        lemma_boundary_time(
            t.now,
            d.levels[from as int].interval,
            d.last_compaction[from as int],
        );
    } else {
        lemma_compaction_step_moves_on(d, t, from + 1);
    }
}

/// The levels reported so far ascend and lie below the one in progress, if any.
pub open spec fn reports_ascend(t: TickView) -> bool {
    let cs = t.report.compactions;
    &&& forall|i: int, j: int| 0 <= i < j < cs.len() ==> (#[trigger] cs[i]).0 < (#[trigger] cs[j]).0
    &&& match t.stage {
        TickStage::Compaction(l) => forall|i: int| 0 <= i < cs.len() ==> (#[trigger] cs[i]).0 < l,
        s => after_compactions(s) || cs.len() == 0,
    }
}

/// One step of a tick keeps the memory in order and notes what it starts.
proof fn lemma_step_moves_on(d: DriverView, t: TickView, event: TickEvent)
    requires
        driver_wf(d),
        expects(t.stage, event),
        t.stage matches TickStage::Compaction(l) ==> l < d.levels.len(),
        reports_ascend(t),
    ensures
        moves_on(d, step_of(d, t, event).0),
        noted(d, step_of(d, t, event).0, t.now, step_of(d, t, event).2),
        step_of(d, t, event).1.now == t.now,
        reports_ascend(step_of(d, t, event).1),
{
    let settled = DriverView { last_checkpoint: t.now, synced_since_checkpoint: false, ..d };
    match (t.stage, event) {
        (TickStage::Checkpoint, TickEvent::Checkpointed(c)) => {
            let t2 = TickView { report: ReportView { checkpoint: c, ..t.report }, ..t };
            lemma_compaction_step_moves_on(d, t2, 0);
            lemma_compaction_step_moves_on(settled, t2, 0);
        },
        (TickStage::Frames, TickEvent::WalFrames(n)) => {
            lemma_compaction_step_moves_on(d, t, 0);
            lemma_compaction_step_moves_on(settled, t, 0);
        },
        (TickStage::TimedCheckpoint, TickEvent::CheckpointedNow(m, r)) => {
            let t2 = TickView {
                report: ReportView { checkpoint: Some((m, r)), ..t.report },
                ..t
            };
            lemma_compaction_step_moves_on(settled, t2, 0);
        },
        (TickStage::Compaction(l), TickEvent::Compacted(i)) => {
            let t2 = match i {
                Some(info) => TickView {
                    report: ReportView {
                        compactions: t.report.compactions.push((l, info)),
                        ..t.report
                    },
                    ..t
                },
                None => t,
            };
            lemma_compaction_step_moves_on(d, t2, (l + 1) as nat);
        },
        (TickStage::SnapshotRetention, TickEvent::SnapshotRetentionEnforced) => {
            lemma_l0_step_moves_on(d, t);
        },
        _ => {},
    }
}

/// What holds after each step of a tick.
pub proof fn lemma_tick_state(d: DriverView, now: Time, events: Seq<TickEvent>, n: nat)
    requires
        driver_wf(d),
        is_tick(d, now, events),
        n <= events.len(),
    ensures
        ({
            let (d1, t1, _) = tick_run(d, now, events, n);
            &&& driver_wf(d1)
            &&& t1.now == now
            &&& t1.stage matches TickStage::Compaction(l) ==> l < d1.levels.len()
            &&& reports_ascend(t1)
            &&& moves_on(d, d1)
        }),
        n > 0 ==> noted(
            tick_run(d, now, events, (n - 1) as nat).0,
            tick_run(d, now, events, n).0,
            now,
            tick_run(d, now, events, n).2,
        ),
    decreases n,
{
    if n > 0 {
        let m = (n - 1) as nat;
        lemma_tick_state(d, now, events, m);
        let (d1, t1, _) = tick_run(d, now, events, m);
        assert(expects(t1.stage, events[m as int]));
        lemma_step_keeps(d1, t1, events[m as int]);
        lemma_step_moves_on(d1, t1, events[m as int]);
        let d2 = step_of(d1, t1, events[m as int]).0;
        assert forall|l: int| 0 <= l < d.levels.len() implies d.last_compaction[l].nanos <= (
        #[trigger] d2.last_compaction[l]).nanos by {
            assert(d.last_compaction[l].nanos <= d1.last_compaction[l].nanos);
        }
    }
}

proof fn lemma_memory_stays(d: DriverView, now: Time, events: Seq<TickEvent>, i: nat, n: nat)
    requires
        driver_wf(d),
        is_tick(d, now, events),
        i <= n <= events.len(),
    ensures
        moves_on(tick_run(d, now, events, i).0, tick_run(d, now, events, n).0),
    decreases n - i,
{
    lemma_tick_state(d, now, events, n);
    if i < n {
        let m = (n - 1) as nat;
        lemma_memory_stays(d, now, events, i, m);
        lemma_tick_state(d, now, events, m);
        let (d1, t1, _) = tick_run(d, now, events, m);
        assert(expects(t1.stage, events[m as int]));
        lemma_step_moves_on(d1, t1, events[m as int]);
        let d0 = tick_run(d, now, events, i).0;
        let d2 = step_of(d1, t1, events[m as int]).0;
        assert forall|l: int| 0 <= l < d0.levels.len() implies d0.last_compaction[l].nanos <= (
        #[trigger] d2.last_compaction[l]).nanos by {
            assert(d0.last_compaction[l].nanos <= d1.last_compaction[l].nanos);
        }
    }
}

/// The interval that an action runs on, if it runs on one.
pub open spec fn interval_of(d: DriverView, action: TickAction) -> Option<Span> {
    match action {
        TickAction::CompactLevel(l) => Some(d.levels[l as int].interval),
        TickAction::Snapshot => Some(d.snapshot_interval),
        TickAction::EnforceL0Retention { .. } => Some(d.l0_retention_interval),
        _ => None,
    }
}

/// The two actions are the same task: the same level's compaction, the snapshot, or
/// L0 retention.
pub open spec fn same_task(a: TickAction, b: TickAction) -> bool {
    match (a, b) {
        (TickAction::CompactLevel(x), TickAction::CompactLevel(y)) => x == y,
        (TickAction::Snapshot, TickAction::Snapshot) => true,
        (TickAction::EnforceL0Retention { .. }, TickAction::EnforceL0Retention { .. }) => true,
        _ => false,
    }
}

/// Within a tick a level is compacted at most once, a snapshot is taken at most
/// once, and L0 retention is enforced at most once.
pub proof fn lemma_once_in_a_tick(
    d: DriverView,
    now: Time,
    events: Seq<TickEvent>,
    i: nat,
    j: nat,
)
    requires
        driver_wf(d),
        is_tick(d, now, events),
        i <= j <= events.len(),
        same_task(tick_run(d, now, events, i).2, tick_run(d, now, events, j).2),
    ensures
        i == j,
{
    if i < j {
        lemma_tick_state(d, now, events, i);
        lemma_tick_state(d, now, events, j);
        lemma_memory_stays(d, now, events, (i - 1) as nat, i);
        lemma_memory_stays(d, now, events, i, (j - 1) as nat);
        lemma_fired_then_due(
            tick_run(d, now, events, (i - 1) as nat).0,
            tick_run(d, now, events, i).0,
            tick_run(d, now, events, (j - 1) as nat).0,
            tick_run(d, now, events, j).0,
            now,
            now,
            tick_run(d, now, events, i).2,
            tick_run(d, now, events, j).2,
        );
    }
}

/// Two ticks in a row run the same task only at different boundaries: a level is
/// compacted, a snapshot taken and L0 retention enforced at most once per boundary.
pub proof fn lemma_once_per_boundary_over_ticks(
    d: DriverView,
    now: Time,
    events: Seq<TickEvent>,
    i: nat,
    later: Time,
    more: Seq<TickEvent>,
    j: nat,
)
    requires
        driver_wf(d),
        is_tick(d, now, events),
        is_tick(tick_run(d, now, events, events.len()).0, later, more),
        i <= events.len(),
        j <= more.len(),
        same_task(
            tick_run(d, now, events, i).2,
            tick_run(tick_run(d, now, events, events.len()).0, later, more, j).2,
        ),
    ensures
        ({
            let iv = interval_of(d, tick_run(d, now, events, i).2)->0.nanos as nat;
            boundary(now.nanos as int, iv) < boundary(later.nanos as int, iv)
        }),
{
    let d1 = tick_run(d, now, events, events.len()).0;
    lemma_tick_state(d, now, events, i);
    lemma_tick_state(d, now, events, (i - 1) as nat);
    lemma_tick_state(d, now, events, events.len());
    lemma_tick_state(d1, later, more, j);
    lemma_tick_state(d1, later, more, (j - 1) as nat);
    lemma_memory_stays(d, now, events, (i - 1) as nat, i);
    lemma_memory_stays(d, now, events, i, events.len());
    let a = tick_run(d, now, events, i).0;
    let b = tick_run(d1, later, more, (j - 1) as nat).0;
    assert forall|l: int| 0 <= l < a.levels.len() implies a.last_compaction[l].nanos <= (
    #[trigger] b.last_compaction[l]).nanos by {
        assert(a.last_compaction[l].nanos <= d1.last_compaction[l].nanos);
    }
    lemma_fired_then_due(
        tick_run(d, now, events, (i - 1) as nat).0,
        a,
        b,
        tick_run(d1, later, more, j).0,
        now,
        later,
        tick_run(d, now, events, i).2,
        tick_run(d1, later, more, j).2,
    );
}

proof fn lemma_fired_then_due(
    before: DriverView,
    fired: DriverView,
    next: DriverView,
    after: DriverView,
    now: Time,
    later: Time,
    a: TickAction,
    b: TickAction,
)
    requires
        noted(before, fired, now, a),
        moves_on(before, fired),
        moves_on(fired, next),
        noted(next, after, later, b),
        same_task(a, b),
    ensures
        ({
            let iv = interval_of(before, a)->0.nanos as nat;
            boundary(now.nanos as int, iv) < boundary(later.nanos as int, iv)
        }),
{
    match a {
        TickAction::CompactLevel(l) => {
            lemma_boundary_time(
                now,
                before.levels[l as int].interval,
                before.last_compaction[l as int],
            );
            assert(fired.last_compaction[l as int].nanos <= next.last_compaction[l as int].nanos);
        },
        TickAction::Snapshot => {
            lemma_boundary_time(now, before.snapshot_interval, before.last_snapshot);
        },
        TickAction::EnforceL0Retention { .. } => {
            lemma_boundary_time(now, before.l0_retention_interval, before.last_l0_retention);
        },
        _ => {},
    }
}

/// None of the levels below `n` is due at `now`. Nothing is compacted into level zero.
pub open spec fn levels_settled(d: DriverView, now: Time, n: nat) -> bool {
    forall|l: int|
        0 < l < n && l < d.levels.len() ==> !due(
            now,
            d.levels[l].interval,
            #[trigger] d.last_compaction[l],
        )
}

/// No snapshot is due at `now`.
pub open spec fn snapshot_settled(d: DriverView, now: Time) -> bool {
    d.snapshot_interval.nanos != 0 ==> !due(now, d.snapshot_interval, d.last_snapshot)
}

/// No L0 retention is due at `now`.
pub open spec fn l0_settled(d: DriverView, now: Time) -> bool {
    d.l0_retention.nanos != 0 && d.l0_retention_interval.nanos != 0 ==> !due(
        now,
        d.l0_retention_interval,
        d.last_l0_retention,
    )
}

/// What a tick has come past is no longer due at its instant.
pub open spec fn settled_so_far(d: DriverView, now: Time, stage: TickStage) -> bool {
    match stage {
        TickStage::Compaction(l) => levels_settled(d, now, (l + 1) as nat),
        TickStage::Snapshot | TickStage::SnapshotRetention => {
            &&& levels_settled(d, now, d.levels.len())
            &&& snapshot_settled(d, now)
        },
        TickStage::L0Retention | TickStage::Totals | TickStage::Done => {
            &&& levels_settled(d, now, d.levels.len())
            &&& snapshot_settled(d, now)
            &&& l0_settled(d, now)
        },
        _ => true,
    }
}

proof fn lemma_l0_step_settles(d: DriverView, t: TickView)
    requires
        levels_settled(d, t.now, d.levels.len()),
        snapshot_settled(d, t.now),
    ensures
        settled_so_far(to_l0_retention(d, t).0, t.now, to_l0_retention(d, t).1.stage),
{
    if due(t.now, d.l0_retention_interval, d.last_l0_retention) {
        lemma_boundary_time(t.now, d.l0_retention_interval, d.last_l0_retention);
    }
}

proof fn lemma_compaction_step_settles(d: DriverView, t: TickView, from: nat)
    requires
        driver_wf(d),
        levels_settled(d, t.now, from),
    ensures
        settled_so_far(to_compaction(d, t, from).0, t.now, to_compaction(d, t, from).1.stage),
    decreases d.levels.len() - from,
{
    lemma_valid_levels(d.levels, 0);
    if from >= d.levels.len() {
        if due(t.now, d.snapshot_interval, d.last_snapshot) {
            lemma_boundary_time(t.now, d.snapshot_interval, d.last_snapshot);
        }
        if !(to_snapshot(d, t).2 is Snapshot) {
            lemma_l0_step_settles(d, t);
        }
    } else if from > 0 && due(
        t.now,
        d.levels[from as int].interval,
        d.last_compaction[from as int],
    ) {
        lemma_boundary_time(
            t.now,
            d.levels[from as int].interval,
            d.last_compaction[from as int],
        );
    } else {
        lemma_compaction_step_settles(d, t, from + 1);
    }
}

proof fn lemma_step_settles(d: DriverView, t: TickView, event: TickEvent)
    requires
        driver_wf(d),
        expects(t.stage, event),
        settled_so_far(d, t.now, t.stage),
    ensures
        settled_so_far(step_of(d, t, event).0, t.now, step_of(d, t, event).1.stage),
{
    let settled = DriverView { last_checkpoint: t.now, synced_since_checkpoint: false, ..d };
    match (t.stage, event) {
        (TickStage::Checkpoint, TickEvent::Checkpointed(c)) => {
            let t2 = TickView { report: ReportView { checkpoint: c, ..t.report }, ..t };
            lemma_compaction_step_settles(d, t2, 0);
            lemma_compaction_step_settles(settled, t2, 0);
        },
        (TickStage::Frames, TickEvent::WalFrames(n)) => {
            lemma_compaction_step_settles(d, t, 0);
            lemma_compaction_step_settles(settled, t, 0);
        },
        (TickStage::TimedCheckpoint, TickEvent::CheckpointedNow(m, r)) => {
            let t2 = TickView {
                report: ReportView { checkpoint: Some((m, r)), ..t.report },
                ..t
            };
            lemma_compaction_step_settles(settled, t2, 0);
        },
        (TickStage::Compaction(l), TickEvent::Compacted(i)) => {
            let t2 = match i {
                Some(info) => TickView {
                    report: ReportView {
                        compactions: t.report.compactions.push((l, info)),
                        ..t.report
                    },
                    ..t
                },
                None => t,
            };
            lemma_compaction_step_settles(d, t2, (l + 1) as nat);
        },
        (TickStage::SnapshotRetention, TickEvent::SnapshotRetentionEnforced) => {
            lemma_l0_step_settles(d, t);
        },
        _ => {},
    }
}

/// What a tick has come past is no longer due.
pub proof fn lemma_tick_settles(d: DriverView, now: Time, events: Seq<TickEvent>, n: nat)
    requires
        driver_wf(d),
        is_tick(d, now, events),
        n <= events.len(),
    ensures
        settled_so_far(
            tick_run(d, now, events, n).0,
            now,
            tick_run(d, now, events, n).1.stage,
        ),
    decreases n,
{
    if n > 0 {
        let m = (n - 1) as nat;
        lemma_tick_settles(d, now, events, m);
        lemma_tick_state(d, now, events, m);
        let (d1, t1, _) = tick_run(d, now, events, m);
        assert(expects(t1.stage, events[m as int]));
        lemma_step_settles(d1, t1, events[m as int]);
    }
}

/// A tick that follows a finished one runs a task only at a later boundary of its
/// interval, whether or not the first one ran it: within one boundary it compacts no
/// level, takes no snapshot and enforces no L0 retention.
pub proof fn lemma_second_tick_waits_for_the_boundary(
    d: DriverView,
    now: Time,
    events: Seq<TickEvent>,
    later: Time,
    more: Seq<TickEvent>,
    j: nat,
)
    requires
        driver_wf(d),
        is_tick(d, now, events),
        tick_run(d, now, events, events.len()).1.stage == TickStage::Done,
        is_tick(tick_run(d, now, events, events.len()).0, later, more),
        j <= more.len(),
    ensures
        interval_of(
            d,
            tick_run(tick_run(d, now, events, events.len()).0, later, more, j).2,
        ) matches Some(iv) ==> boundary(now.nanos as int, iv.nanos as nat) < boundary(
            later.nanos as int,
            iv.nanos as nat,
        ),
{
    let d1 = tick_run(d, now, events, events.len()).0;
    lemma_tick_state(d, now, events, events.len());
    lemma_tick_settles(d, now, events, events.len());
    lemma_tick_state(d1, later, more, j);
    if j > 0 {
        lemma_tick_state(d1, later, more, (j - 1) as nat);
        let d2 = tick_run(d1, later, more, (j - 1) as nat).0;
        match tick_run(d1, later, more, j).2 {
            TickAction::CompactLevel(l) => {
                assert(d1.last_compaction[l as int].nanos <= d2.last_compaction[l as int].nanos);
            },
            _ => {},
        }
    }
}

/// The levels that a tick reports compactions of ascend.
pub proof fn lemma_reported_levels_ascend(d: DriverView, now: Time, events: Seq<TickEvent>)
    requires
        driver_wf(d),
        is_tick(d, now, events),
    ensures
        ({
            let cs = tick_run(d, now, events, events.len()).1.report.compactions;
            forall|i: int, j: int|
                0 <= i < j < cs.len() ==> (#[trigger] cs[i]).0 < (#[trigger] cs[j]).0
        }),
{
    lemma_tick_state(d, now, events, events.len());
}

} // verus!
