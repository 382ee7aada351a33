//! What a tick of the driver does, from its start to its end.

use crate::db::CheckpointMode;
use crate::sync::driver::{
    Driver, DriverView, ReportView, Tick, TickAction, TickEvent, TickStage, TickView, driver_wf,
    due, expects, is_tick, lemma_tick_settles, lemma_tick_state, step_of, tick_run, to_compaction,
};
use crate::sync::level::{CompactionLevels, lemma_valid_levels};
use crate::sync::position::SyncOutcome;
use crate::time::{Span, Time, boundary};
use vstd::prelude::*;

verus! {

/// An interval boundary at or before `now` lies after `last`.
pub open spec fn boundary_passed(now: Time, interval: Span, last: Time) -> bool {
    boundary(now.nanos as int, interval.nanos as nat) > last.nanos
}

/// The memory changes only by running what it remembers: a level's boundary by
/// compacting it, the snapshot's by taking one, that of L0 retention by enforcing it.
pub open spec fn remembers_what_ran(a: DriverView, b: DriverView, action: TickAction) -> bool {
    &&& forall|l: int|
        0 <= l < a.levels.len() && #[trigger] b.last_compaction[l] != a.last_compaction[l]
            ==> action == TickAction::CompactLevel(l as u32)
    &&& b.last_snapshot != a.last_snapshot ==> action == TickAction::Snapshot
    &&& b.last_l0_retention != a.last_l0_retention ==> action == (TickAction::EnforceL0Retention {
        retention: a.l0_retention,
    })
}

proof fn lemma_compaction_remembers(d: DriverView, t: TickView, from: nat)
    requires
        driver_wf(d),
    ensures
        remembers_what_ran(d, to_compaction(d, t, from).0, to_compaction(d, t, from).2),
        same_settings(d, to_compaction(d, t, from).0),
    decreases d.levels.len() - from,
{
    lemma_valid_levels(d.levels, 0);
    if from < d.levels.len() {
        lemma_compaction_remembers(d, t, from + 1);
    }
}

/// The settings of the driver stay.
pub open spec fn same_settings(a: DriverView, b: DriverView) -> bool {
    &&& b.levels == a.levels
    &&& b.last_compaction.len() == a.last_compaction.len()
    &&& b.snapshot_interval == a.snapshot_interval
    &&& b.snapshot_retention == a.snapshot_retention
    &&& b.l0_retention == a.l0_retention
    &&& b.l0_retention_interval == a.l0_retention_interval
    &&& b.checkpoint_interval == a.checkpoint_interval
}

proof fn lemma_step_remembers(d: DriverView, t: TickView, event: TickEvent)
    requires
        driver_wf(d),
        expects(t.stage, event),
    ensures
        remembers_what_ran(d, step_of(d, t, event).0, step_of(d, t, event).2),
        same_settings(d, step_of(d, t, event).0),
{
    let settled = DriverView { last_checkpoint: t.now, synced_since_checkpoint: false, ..d };
    match (t.stage, event) {
        (TickStage::Checkpoint, TickEvent::Checkpointed(c)) => {
            let t2 = TickView { report: ReportView { checkpoint: c, ..t.report }, ..t };
            lemma_compaction_remembers(d, t2, 0);
            lemma_compaction_remembers(settled, t2, 0);
        },
        (TickStage::Frames, TickEvent::WalFrames(n)) => {
            lemma_compaction_remembers(d, t, 0);
            lemma_compaction_remembers(settled, t, 0);
        },
        (TickStage::TimedCheckpoint, TickEvent::CheckpointedNow(m, r)) => {
            let t2 = TickView {
                report: ReportView { checkpoint: Some((m, r)), ..t.report },
                ..t
            };
            lemma_compaction_remembers(settled, t2, 0);
        },
        (TickStage::Compaction(l), TickEvent::Compacted(i)) => {
            let t2 = match i {
                Some(info) => TickView {
                    report: ReportView {
                        compactions: t.report.compactions.push((l, info)),
                        ..t.report
                    },
                    ..t
                },
                None => t,
            };
            lemma_compaction_remembers(d, t2, (l + 1) as nat);
        },
        _ => {},
    }
}

/// Some of the first `n` actions of the tick is `action`.
pub open spec fn runs(
    d: DriverView,
    now: Time,
    events: Seq<TickEvent>,
    n: nat,
    action: TickAction,
) -> bool {
    exists|j: nat| j <= n && (#[trigger] tick_run(d, now, events, j)).2 == action
}

proof fn lemma_changed_memory_means_run(d: DriverView, now: Time, events: Seq<TickEvent>, n: nat)
    requires
        driver_wf(d),
        is_tick(d, now, events),
        n <= events.len(),
    ensures
        ({
            let e = tick_run(d, now, events, n).0;
            &&& same_settings(d, e)
            &&& forall|l: int|
                0 <= l < d.levels.len() && #[trigger] e.last_compaction[l] != d.last_compaction[l]
                    ==> runs(d, now, events, n, TickAction::CompactLevel(l as u32))
            &&& e.last_snapshot != d.last_snapshot ==> runs(
                d,
                now,
                events,
                n,
                TickAction::Snapshot,
            )
            &&& e.last_l0_retention != d.last_l0_retention ==> runs(
                d,
                now,
                events,
                n,
                TickAction::EnforceL0Retention { retention: d.l0_retention },
            )
        }),
    decreases n,
{
    if n > 0 {
        let m = (n - 1) as nat;
        lemma_changed_memory_means_run(d, now, events, m);
        lemma_tick_state(d, now, events, m);
        let (d1, t1, _) = tick_run(d, now, events, m);
        assert(expects(t1.stage, events[m as int]));
        lemma_step_remembers(d1, t1, events[m as int]);
        let e = tick_run(d, now, events, n).0;
        let a = tick_run(d, now, events, n).2;
        assert forall|l: int|
            0 <= l < d.levels.len() && #[trigger] e.last_compaction[l]
                != d.last_compaction[l] implies runs(
            d,
            now,
            events,
            n,
            TickAction::CompactLevel(l as u32),
        ) by {
            if d1.last_compaction[l] != d.last_compaction[l] {
                lemma_still_runs(d, now, events, m, n, TickAction::CompactLevel(l as u32));
            } else {
                assert(a == TickAction::CompactLevel(l as u32));
            }
        }
        if d1.last_snapshot != d.last_snapshot {
            lemma_still_runs(d, now, events, m, n, TickAction::Snapshot);
        }
        if d1.last_l0_retention != d.last_l0_retention {
            lemma_still_runs(
                d,
                now,
                events,
                m,
                n,
                TickAction::EnforceL0Retention { retention: d.l0_retention },
            );
        }
    }
}

proof fn lemma_still_runs(
    d: DriverView,
    now: Time,
    events: Seq<TickEvent>,
    m: nat,
    n: nat,
    action: TickAction,
)
    requires
        m <= n,
        runs(d, now, events, m, action),
    ensures
        runs(d, now, events, n, action),
{
    let j = choose|j: nat| j <= m && (#[trigger] tick_run(d, now, events, j)).2 == action;
    assert(tick_run(d, now, events, j).2 == action);
}

/// What is due is done. A tick that is finished has compacted every level that had a
/// boundary pass since it was last compacted, taken a snapshot if its interval is set and
/// a boundary of it passed, and enforced L0 retention with the window that is set if
/// both are set and a boundary passed.
pub proof fn lemma_due_tasks_are_run(d: DriverView, now: Time, events: Seq<TickEvent>)
    requires
        driver_wf(d),
        is_tick(d, now, events),
        tick_run(d, now, events, events.len()).1.stage == TickStage::Done,
    ensures
        forall|l: int|
            0 < l < d.levels.len() && boundary_passed(
                now,
                d.levels[l].interval,
                #[trigger] d.last_compaction[l],
            ) ==> runs(d, now, events, events.len(), TickAction::CompactLevel(l as u32)),
        d.snapshot_interval.nanos > 0 && boundary_passed(
            now,
            d.snapshot_interval,
            d.last_snapshot,
        ) ==> runs(d, now, events, events.len(), TickAction::Snapshot),
        d.l0_retention.nanos > 0 && d.l0_retention_interval.nanos > 0 && boundary_passed(
            now,
            d.l0_retention_interval,
            d.last_l0_retention,
        ) ==> runs(
            d,
            now,
            events,
            events.len(),
            TickAction::EnforceL0Retention { retention: d.l0_retention },
        ),
{
    let n = events.len();
    let e = tick_run(d, now, events, n).0;
    lemma_tick_settles(d, now, events, n);
    lemma_tick_state(d, now, events, n);
    lemma_changed_memory_means_run(d, now, events, n);
    assert forall|l: int|
        0 < l < d.levels.len() && boundary_passed(
            now,
            d.levels[l].interval,
            #[trigger] d.last_compaction[l],
        ) implies runs(d, now, events, n, TickAction::CompactLevel(l as u32)) by {
        assert(!due(now, e.levels[l].interval, e.last_compaction[l]));
        assert(e.last_compaction[l] != d.last_compaction[l]);
    }
}

/// A tick does nothing out of turn: a level is compacted, a snapshot taken and L0
/// retention enforced only where a boundary of their interval had passed since they were
/// last run.
pub proof fn lemma_only_due_tasks_are_run(
    d: DriverView,
    now: Time,
    events: Seq<TickEvent>,
    j: nat,
)
    requires
        driver_wf(d),
        is_tick(d, now, events),
        j <= events.len(),
    ensures
        match tick_run(d, now, events, j).2 {
            TickAction::CompactLevel(l) => 0 < l < d.levels.len() && boundary_passed(
                now,
                d.levels[l as int].interval,
                d.last_compaction[l as int],
            ),
            TickAction::Snapshot => d.snapshot_interval.nanos > 0 && boundary_passed(
                now,
                d.snapshot_interval,
                d.last_snapshot,
            ),
            TickAction::EnforceL0Retention { retention } => {
                &&& retention == d.l0_retention
                &&& d.l0_retention.nanos > 0
                &&& d.l0_retention_interval.nanos > 0
                &&& boundary_passed(now, d.l0_retention_interval, d.last_l0_retention)
            },
            TickAction::EnforceSnapshotRetention { retention, max_level } => {
                &&& retention == d.snapshot_retention
                &&& max_level == d.levels.len() - 1
            },
            TickAction::CheckpointNow(m) => m == CheckpointMode::Passive,
            _ => true,
        },
{
    if j > 0 {
        let m = (j - 1) as nat;
        lemma_tick_state(d, now, events, j);
        lemma_tick_state(d, now, events, m);
        lemma_changed_memory_means_run(d, now, events, m);
        let (d1, t1, _) = tick_run(d, now, events, m);
        lemma_valid_levels(d.levels, 0);
        assert(expects(t1.stage, events[m as int]));
        lemma_step_action(d1, t1, events[m as int]);
        match tick_run(d, now, events, j).2 {
            TickAction::CompactLevel(l) => {
                assert(d.last_compaction[l as int].nanos <= d1.last_compaction[l as int].nanos);
            },
            _ => {},
        }
    }
}

/// The parameters of an action are those of the driver.
proof fn lemma_step_action(d: DriverView, t: TickView, event: TickEvent)
    requires
        driver_wf(d),
        expects(t.stage, event),
    ensures
        parameters_of(d, step_of(d, t, event).2),
{
    let settled = DriverView { last_checkpoint: t.now, synced_since_checkpoint: false, ..d };
    match (t.stage, event) {
        (TickStage::Checkpoint, TickEvent::Checkpointed(c)) => {
            let t2 = TickView { report: ReportView { checkpoint: c, ..t.report }, ..t };
            lemma_compaction_action(d, t2, 0);
            lemma_compaction_action(settled, t2, 0);
        },
        (TickStage::Frames, TickEvent::WalFrames(n)) => {
            lemma_compaction_action(d, t, 0);
            lemma_compaction_action(settled, t, 0);
        },
        (TickStage::TimedCheckpoint, TickEvent::CheckpointedNow(m, r)) => {
            let t2 = TickView {
                report: ReportView { checkpoint: Some((m, r)), ..t.report },
                ..t
            };
            lemma_compaction_action(settled, t2, 0);
        },
        (TickStage::Compaction(l), TickEvent::Compacted(i)) => {
            let t2 = match i {
                Some(info) => TickView {
                    report: ReportView {
                        compactions: t.report.compactions.push((l, info)),
                        ..t.report
                    },
                    ..t
                },
                None => t,
            };
            lemma_compaction_action(d, t2, (l + 1) as nat);
        },
        _ => {},
    }
}

/// The parameters of the action are those that the driver is set to.
pub open spec fn parameters_of(d: DriverView, action: TickAction) -> bool {
    match action {
        TickAction::EnforceL0Retention { retention } => retention == d.l0_retention,
        TickAction::EnforceSnapshotRetention { retention, max_level } => {
            &&& retention == d.snapshot_retention
            &&& max_level == (d.levels.len() - 1) as u32
        },
        TickAction::CheckpointNow(m) => m == CheckpointMode::Passive,
        _ => true,
    }
}

proof fn lemma_compaction_action(d: DriverView, t: TickView, from: nat)
    ensures
        parameters_of(d, to_compaction(d, t, from).2),
    decreases d.levels.len() - from,
{
    if from < d.levels.len() {
        lemma_compaction_action(d, t, from + 1);
    }
}

/// A tick starts by replicating new frames, then has the WAL checkpointed if it has grown
/// enough. Where that was not needed, something was replicated since the last
/// checkpoint and the interval is set, the WAL is looked at.
pub proof fn lemma_tick_replicates_first(
    d: DriverView,
    now: Time,
    events: Seq<TickEvent>,
    o: SyncOutcome,
)
    requires
        events.len() >= 2,
        events[0] == TickEvent::Synced(o),
        events[1] is Checkpointed,
    ensures
        tick_run(d, now, events, 0).2 == TickAction::Sync,
        tick_run(d, now, events, 1).2 == TickAction::CheckpointIfNeeded,
        tick_run(d, now, events, 2).2 == TickAction::CountWalFrames <==> {
            &&& events[1] == TickEvent::Checkpointed(None)
            &&& d.checkpoint_interval.nanos > 0
            &&& d.synced_since_checkpoint || o != SyncOutcome::Skipped
        },
{
    reveal_with_fuel(tick_run, 3);
    let (d1, t1, _) = tick_run(d, now, events, 1);
    let c = events[1]->Checkpointed_0;
    let t2 = TickView { report: ReportView { checkpoint: c, ..t1.report }, ..t1 };
    lemma_compaction_never_counts(d1, t2, 0);
    lemma_compaction_never_counts(
        DriverView { last_checkpoint: now, synced_since_checkpoint: false, ..d1 },
        t2,
        0,
    );
}

proof fn lemma_compaction_never_counts(d: DriverView, t: TickView, from: nat)
    ensures
        to_compaction(d, t, from).2 != TickAction::CountWalFrames,
        !(to_compaction(d, t, from).2 is CheckpointNow),
        to_compaction(d, t, from).1.report == t.report,
        to_compaction(d, t, from).0.last_checkpoint == d.last_checkpoint,
        to_compaction(d, t, from).0.synced_since_checkpoint == d.synced_since_checkpoint,
        to_compaction(d, t, from).0.prev_resnapshots == d.prev_resnapshots,
    decreases d.levels.len() - from,
{
    if from < d.levels.len() {
        lemma_compaction_never_counts(d, t, from + 1);
    }
}

/// A checkpoint by time runs exactly where the WAL holds frames and the interval has
/// passed since the last checkpoint.
pub proof fn lemma_timed_checkpoint_runs(d: DriverView, t: TickView, frames: u64)
    requires
        t.stage == TickStage::Frames,
        d.checkpoint_interval.nanos > 0,
        d.synced_since_checkpoint,
    ensures
        step_of(d, t, TickEvent::WalFrames(frames)).2 == TickAction::CheckpointNow(
            CheckpointMode::Passive,
        ) <==> frames > 0 && t.now.nanos - d.last_checkpoint.nanos >= d.checkpoint_interval.nanos,
{
    lemma_compaction_never_counts(d, t, 0);
    lemma_compaction_never_counts(
        DriverView { last_checkpoint: t.now, synced_since_checkpoint: false, ..d },
        t,
        0,
    );
}

/// The report tells what happened, and the driver remembers the checkpoint: each event
/// sets its part of the report and leaves the rest; a checkpoint is noted with its
/// instant, and what is replicated after it counts from there.
pub proof fn lemma_report_tells_what_happened(d: DriverView, t: TickView, event: TickEvent)
    requires
        expects(t.stage, event),
        t.stage == TickStage::Frames ==> t.report.checkpoint is None,
    ensures
        ({
            let (e, u, _) = step_of(d, t, event);
            let r = u.report;
            let before = t.report;
            &&& r.synced == (match event {
                TickEvent::Synced(o) => o,
                _ => before.synced,
            })
            &&& r.checkpoint == (match event {
                TickEvent::Checkpointed(c) => c,
                TickEvent::CheckpointedNow(m, x) => Some((m, x)),
                _ => before.checkpoint,
            })
            &&& r.compactions == (match (event, t.stage) {
                (TickEvent::Compacted(Some(i)), TickStage::Compaction(l)) => before.compactions.push(
                    (l, i),
                ),
                _ => before.compactions,
            })
            &&& r.snapshot == (match event {
                TickEvent::Snapshotted(i) => i,
                _ => before.snapshot,
            })
            &&& r.l0_pruned == (match event {
                TickEvent::L0Pruned(n) => n,
                _ => before.l0_pruned,
            })
            &&& r.staged_backlog_bytes == (match event {
                TickEvent::Totals { resnapshots, staged_backlog_bytes } => staged_backlog_bytes,
                _ => before.staged_backlog_bytes,
            })
            &&& r.resnapshot_fired == (match event {
                TickEvent::Totals { resnapshots, staged_backlog_bytes } => resnapshots
                    > d.prev_resnapshots,
                _ => before.resnapshot_fired,
            })
            &&& e.prev_resnapshots == (match event {
                TickEvent::Totals { resnapshots, staged_backlog_bytes } => resnapshots,
                _ => d.prev_resnapshots,
            })
            &&& match event {
                TickEvent::Synced(o) => e.synced_since_checkpoint == (d.synced_since_checkpoint || o
                    != SyncOutcome::Skipped) && e.last_checkpoint == d.last_checkpoint,
                TickEvent::Checkpointed(Some(_)) => !e.synced_since_checkpoint && e.last_checkpoint
                    == t.now,
                TickEvent::CheckpointedNow(_, _) => !e.synced_since_checkpoint && e.last_checkpoint
                    == t.now,
                _ => e.synced_since_checkpoint == d.synced_since_checkpoint && e.last_checkpoint
                    == d.last_checkpoint,
            }
        }),
{
    let settled = DriverView { last_checkpoint: t.now, synced_since_checkpoint: false, ..d };
    match (t.stage, event) {
        (TickStage::Checkpoint, TickEvent::Checkpointed(c)) => {
            let t2 = TickView { report: ReportView { checkpoint: c, ..t.report }, ..t };
            lemma_compaction_never_counts(d, t2, 0);
            lemma_compaction_never_counts(settled, t2, 0);
        },
        (TickStage::Frames, TickEvent::WalFrames(n)) => {
            lemma_compaction_never_counts(d, t, 0);
            lemma_compaction_never_counts(settled, t, 0);
        },
        (TickStage::TimedCheckpoint, TickEvent::CheckpointedNow(m, r)) => {
            let t2 = TickView {
                report: ReportView { checkpoint: Some((m, r)), ..t.report },
                ..t
            };
            lemma_compaction_never_counts(settled, t2, 0);
        },
        (TickStage::Compaction(l), TickEvent::Compacted(i)) => {
            let t2 = match i {
                Some(info) => TickView {
                    report: ReportView {
                        compactions: t.report.compactions.push((l, info)),
                        ..t.report
                    },
                    ..t
                },
                None => t,
            };
            lemma_compaction_never_counts(d, t2, (l + 1) as nat);
        },
        _ => {},
    }
}

/// A snapshot is followed by its retention, and that by what is left of the tick; the last
/// thing a tick does is collect the totals, and it is then over.
pub proof fn lemma_tick_ends_with_the_totals(d: DriverView, t: TickView, event: TickEvent)
    requires
        expects(t.stage, event),
    ensures
        event is Snapshotted ==> step_of(d, t, event).2 is EnforceSnapshotRetention,
        event is L0Pruned ==> step_of(d, t, event).2 == TickAction::Totals,
        event is SnapshotRetentionEnforced ==> step_of(d, t, event).2 is EnforceL0Retention
            || step_of(d, t, event).2 == TickAction::Totals,
        event is Totals <==> step_of(d, t, event).2 == TickAction::Finish,
        event is Totals ==> step_of(d, t, event).1.stage == TickStage::Done,
{
    let settled = DriverView { last_checkpoint: t.now, synced_since_checkpoint: false, ..d };
    match (t.stage, event) {
        (TickStage::Checkpoint, TickEvent::Checkpointed(c)) => {
            let t2 = TickView { report: ReportView { checkpoint: c, ..t.report }, ..t };
            lemma_compaction_never_finishes(d, t2, 0);
            lemma_compaction_never_finishes(settled, t2, 0);
        },
        (TickStage::Frames, TickEvent::WalFrames(n)) => {
            lemma_compaction_never_finishes(d, t, 0);
            lemma_compaction_never_finishes(settled, t, 0);
        },
        (TickStage::TimedCheckpoint, TickEvent::CheckpointedNow(m, r)) => {
            let t2 = TickView {
                report: ReportView { checkpoint: Some((m, r)), ..t.report },
                ..t
            };
            lemma_compaction_never_finishes(settled, t2, 0);
        },
        (TickStage::Compaction(l), TickEvent::Compacted(i)) => {
            let t2 = match i {
                Some(info) => TickView {
                    report: ReportView {
                        compactions: t.report.compactions.push((l, info)),
                        ..t.report
                    },
                    ..t
                },
                None => t,
            };
            lemma_compaction_never_finishes(d, t2, (l + 1) as nat);
        },
        _ => {},
    }
}

proof fn lemma_compaction_never_finishes(d: DriverView, t: TickView, from: nat)
    ensures
        to_compaction(d, t, from).2 != TickAction::Finish,
    decreases d.levels.len() - from,
{
    if from < d.levels.len() {
        lemma_compaction_never_finishes(d, t, from + 1);
    }
}

/// A new driver has the default windows, and has done nothing since the epoch.
pub proof fn lemma_new_driver(levels: CompactionLevels, d: Driver)
    requires
        call_ensures(Driver::new, (levels,), d),
    ensures
        d@.levels == levels@,
        d@.snapshot_interval.nanos == 24 * 60 * 60 * 1_000_000_000,
        d@.snapshot_retention.nanos == 24 * 60 * 60 * 1_000_000_000,
        d@.l0_retention.nanos == 5 * 60 * 1_000_000_000,
        d@.l0_retention_interval.nanos == 15 * 1_000_000_000,
        d@.checkpoint_interval.nanos == 60 * 1_000_000_000,
        forall|l: int|
            0 <= l < d@.levels.len() ==> (#[trigger] d@.last_compaction[l]).nanos == 0,
        d@.last_snapshot.nanos == 0,
        d@.last_l0_retention.nanos == 0,
        d@.last_checkpoint.nanos == 0,
        !d@.synced_since_checkpoint,
{
}

/// Each setter sets its own window and nothing else.
pub proof fn lemma_setters(
    d: Driver,
    x: Span,
    checkpoint: Driver,
    snapshot: Driver,
    retention: Driver,
    l0: Driver,
    l0_check: Driver,
)
    requires
        call_ensures(Driver::with_checkpoint_interval, (d, x), checkpoint),
        call_ensures(Driver::with_snapshot_interval, (d, x), snapshot),
        call_ensures(Driver::with_snapshot_retention, (d, x), retention),
        call_ensures(Driver::with_l0_retention, (d, x), l0),
        call_ensures(Driver::with_l0_retention_interval, (d, x), l0_check),
    ensures
        checkpoint@ == (DriverView { checkpoint_interval: x, ..d@ }),
        snapshot@ == (DriverView { snapshot_interval: x, ..d@ }),
        retention@ == (DriverView { snapshot_retention: x, ..d@ }),
        l0@ == (DriverView { l0_retention: x, ..d@ }),
        l0_check@ == (DriverView { l0_retention_interval: x, ..d@ }),
{
}

/// A tick starts afresh, with the sync.
pub proof fn lemma_tick_starts(d: Driver, now: Time, r: (Tick, TickAction))
    requires
        call_ensures(Driver::start, (&d, now), r),
    ensures
        r.0@ == tick_run(d@, now, Seq::empty(), 0).1,
        r.0.now == now,
        r.1 == TickAction::Sync,
{
}

} // verus!
