//! When to checkpoint, and whether a checkpoint overtook what was captured.

use crate::db::{CheckpointMode, CheckpointResult};
use crate::sync::position::{Position, frames_before, wal_frames_before};
use crate::wire::{i64_bits, i64_to_bits};
use vstd::prelude::*;

verus! {

/// Default WAL-frame growth before a checkpoint (~4 MB at 4 KB pages).
pub const DEFAULT_MIN_CHECKPOINT_FRAMES: u64 = 1000;

/// Default blocking-TRUNCATE checkpoint threshold (~500 MB at 4 KB pages). The
/// emergency brake that bounds the WAL under sustained writes when PASSIVE keeps
/// returning busy.
pub const DEFAULT_TRUNCATE_FRAMES: u64 = 121359;

/// Which checkpoint `live` synced frames call for, if any.
pub open spec fn mode_for(live: u64, min_frames: u64, truncate_frames: u64) -> Option<
    CheckpointMode,
> {
    if live >= truncate_frames {
        Some(CheckpointMode::Truncate)
    } else if live >= min_frames {
        Some(CheckpointMode::Passive)
    } else {
        None
    }
}

/// Which checkpoint a WAL with `live` logically-synced frames calls for, if any:
/// a non-blocking one once it has grown enough, and a blocking one as the
/// emergency brake.
pub fn checkpoint_mode(live: u64, min_frames: u64, truncate_frames: u64) -> (r: Option<
    CheckpointMode,
>)
    ensures
        r == mode_for(live, min_frames, truncate_frames),
{
    if live >= truncate_frames {
        Some(CheckpointMode::Truncate)
    } else if live >= min_frames {
        Some(CheckpointMode::Passive)
    } else {
        None
    }
}

/// What to do next in a checkpoint cycle.
#[derive(Clone, Copy, Debug, PartialEq, Eq, Structural)]
pub enum CycleAction {
    /// Stage the frames committed up to now.
    StageNext,
    /// Checkpoint in this mode.
    Checkpoint(CheckpointMode),
    /// Upload what was staged, and advance the position.
    UploadStaged,
    /// Stage a full snapshot of the database and upload it.
    Resnapshot,
    /// The cycle is over.
    Finish(CheckpointMode, CheckpointResult),
}

/// How far a checkpoint cycle has come.
#[derive(Clone, Copy, Debug, PartialEq, Eq, Structural)]
pub enum CycleStage {
    Start,
    /// What was captured reaches this WAL offset; whether a file was staged.
    Staged { captured: u64, pending: bool },
    Checkpointed { captured: u64, pending: bool, result: CheckpointResult },
    Uploaded { captured: u64, result: CheckpointResult },
    Done { result: CheckpointResult },
}

/// A stage → checkpoint → upload cycle. The frames are durable before the
/// checkpoint can fold them into the database; where the checkpoint folded more
/// than was captured, a snapshot recovers the rest.
#[derive(Clone, Copy, Debug, PartialEq, Eq, Structural)]
pub struct CheckpointCycle {
    pub mode: CheckpointMode,
    pub page_size: u32,
    pub stage: CycleStage,
}

/// What the caller reports back.
#[derive(Clone, Copy, Debug, PartialEq, Eq, Structural)]
pub enum CycleEvent {
    /// Staging is done: the WAL offset that the staged file reaches, or `None`
    /// where there was nothing to stage.
    Staged(Option<u64>),
    Checkpointed(CheckpointResult),
    Uploaded,
    Resnapshotted,
}

/// The checkpoint folded more frames into the database than were captured.
pub open spec fn over_folded(result: CheckpointResult, captured: u64, page_size: u32) -> bool {
    i64_bits(result.checkpointed_frames) > frames_before(captured, page_size)
}

impl CheckpointCycle {
    /// What to do next.
    pub open spec fn next(self) -> CycleAction {
        match self.stage {
            CycleStage::Start => CycleAction::StageNext,
            CycleStage::Staged { .. } => CycleAction::Checkpoint(self.mode),
            CycleStage::Checkpointed { captured, pending, result } => if pending {
                CycleAction::UploadStaged
            } else if over_folded(result, captured, self.page_size) {
                CycleAction::Resnapshot
            } else {
                CycleAction::Finish(self.mode, result)
            },
            CycleStage::Uploaded { captured, result } => if over_folded(
                result,
                captured,
                self.page_size,
            ) {
                CycleAction::Resnapshot
            } else {
                CycleAction::Finish(self.mode, result)
            },
            CycleStage::Done { result } => CycleAction::Finish(self.mode, result),
        }
    }

    /// The event is what the next action reports.
    pub open spec fn expects(self, event: CycleEvent) -> bool {
        match self.next() {
            CycleAction::StageNext => event is Staged,
            CycleAction::Checkpoint(_) => event is Checkpointed,
            CycleAction::UploadStaged => event is Uploaded,
            CycleAction::Resnapshot => event is Resnapshotted,
            CycleAction::Finish(_, _) => false,
        }
    }

    /// The stage after an event, from the position before the cycle.
    pub open spec fn after(self, pos: Position, event: CycleEvent) -> CycleStage {
        match (self.stage, event) {
            (CycleStage::Start, CycleEvent::Staged(Some(offset))) => CycleStage::Staged {
                captured: offset,
                pending: true,
            },
            (CycleStage::Start, CycleEvent::Staged(None)) => CycleStage::Staged {
                captured: pos.wal_offset,
                pending: false,
            },
            (
                CycleStage::Staged { captured, pending },
                CycleEvent::Checkpointed(result),
            ) => CycleStage::Checkpointed { captured, pending, result },
            (
                CycleStage::Checkpointed { captured, pending, result },
                CycleEvent::Uploaded,
            ) => CycleStage::Uploaded { captured, result },
            (
                CycleStage::Checkpointed { captured, pending, result },
                CycleEvent::Resnapshotted,
            ) => CycleStage::Done { result },
            (
                CycleStage::Uploaded { captured, result },
                CycleEvent::Resnapshotted,
            ) => CycleStage::Done { result },
            (s, _) => s,
        }
    }

    /// Starts a cycle.
    pub fn begin(mode: CheckpointMode, page_size: u32) -> (c: CheckpointCycle)
        ensures
            c == (CheckpointCycle { mode, page_size, stage: CycleStage::Start }),
    {
        CheckpointCycle { mode, page_size, stage: CycleStage::Start }
    }

    fn overtook(&self, captured: u64, result: CheckpointResult) -> (r: bool)
        ensures
            r == over_folded(result, captured, self.page_size),
    {
        i64_to_bits(result.checkpointed_frames) > wal_frames_before(captured, self.page_size)
    }

    /// What to do next.
    pub fn action(&self) -> (a: CycleAction)
        ensures
            a == self.next(),
    {
        match self.stage {
            CycleStage::Start => CycleAction::StageNext,
            CycleStage::Staged { .. } => CycleAction::Checkpoint(self.mode),
            CycleStage::Checkpointed { captured, pending, result } => {
                if pending {
                    CycleAction::UploadStaged
                } else if self.overtook(captured, result) {
                    CycleAction::Resnapshot
                } else {
                    CycleAction::Finish(self.mode, result)
                }
            },
            CycleStage::Uploaded { captured, result } => {
                if self.overtook(captured, result) {
                    CycleAction::Resnapshot
                } else {
                    CycleAction::Finish(self.mode, result)
                }
            },
            CycleStage::Done { result } => CycleAction::Finish(self.mode, result),
        }
    }

    /// Records what the next action reported; `pos` is the position before the
    /// cycle.
    pub fn handle(&mut self, pos: &Position, event: CycleEvent)
        requires
            old(self).expects(event),
        ensures
            final(self).mode == old(self).mode,
            final(self).page_size == old(self).page_size,
            final(self).stage == old(self).after(*pos, event),
    {
        self.stage = match (self.stage, event) {
            (CycleStage::Start, CycleEvent::Staged(Some(offset))) => CycleStage::Staged {
                captured: offset,
                pending: true,
            },
            (CycleStage::Start, CycleEvent::Staged(None)) => CycleStage::Staged {
                captured: pos.wal_offset,
                pending: false,
            },
            (
                CycleStage::Staged { captured, pending },
                CycleEvent::Checkpointed(result),
            ) => CycleStage::Checkpointed { captured, pending, result },
            (
                CycleStage::Checkpointed { captured, pending: _, result },
                CycleEvent::Uploaded,
            ) => CycleStage::Uploaded { captured, result },
            (
                CycleStage::Checkpointed { captured: _, pending: _, result },
                CycleEvent::Resnapshotted,
            ) => CycleStage::Done { result },
            (
                CycleStage::Uploaded { captured: _, result },
                CycleEvent::Resnapshotted,
            ) => CycleStage::Done { result },
            (s, _) => s,
        };
    }

    /// A checkpoint never runs before what was committed is staged, and a cycle
    /// that folded more frames than were captured does not finish without a
    /// snapshot.
    pub proof fn lemma_nothing_lost(self)
        ensures
            self.next() is Checkpoint ==> self.stage is Staged,
            self.next() is Finish ==> (self.stage matches CycleStage::Uploaded {
                captured,
                result,
            } ==> !over_folded(result, captured, self.page_size)),
            self.next() is Finish ==> (self.stage matches CycleStage::Checkpointed {
                captured,
                pending,
                result,
            } ==> !pending && !over_folded(result, captured, self.page_size)),
    {
    }
}

/// A checkpoint is called for once enough frames are synced, and a blocking one once the
/// brake is reached, whatever the other threshold is.
pub proof fn lemma_checkpoint_thresholds(
    live: u64,
    min_frames: u64,
    truncate_frames: u64,
    r: Option<CheckpointMode>,
)
    requires
        call_ensures(checkpoint_mode, (live, min_frames, truncate_frames), r),
    ensures
        r == Some(CheckpointMode::Truncate) <==> live >= truncate_frames,
        r == Some(CheckpointMode::Passive) <==> min_frames <= live < truncate_frames,
        r is None <==> live < min_frames && live < truncate_frames,
{
}

/// The cycle after the event `event`.
pub open spec fn cycle_after(
    c: CheckpointCycle,
    pos: Position,
    event: CycleEvent,
) -> CheckpointCycle {
    CheckpointCycle { stage: c.after(pos, event), ..c }
}

/// A checkpoint cycle stages what is committed, checkpoints, uploads what was staged, and
/// takes a snapshot exactly where the checkpoint folded more frames than lie before the
/// offset that was captured, or does not know how many: the offset of the staged file, or
/// the position's where there was nothing to stage.
pub proof fn lemma_cycle_runs_in_order(
    mode: CheckpointMode,
    page_size: u32,
    pos: Position,
    staged: Option<u64>,
    result: CheckpointResult,
    k: nat,
    over: nat,
    c: CheckpointCycle,
)
    requires
        call_ensures(CheckpointCycle::begin, (mode, page_size), c),
        (match staged {
            Some(offset) => offset,
            None => pos.wal_offset,
        }) == 32 + k * (24 + page_size) + over,
        over < 24 + page_size,
    ensures
        ({
            let c1 = cycle_after(c, pos, CycleEvent::Staged(staged));
            let c2 = cycle_after(c1, pos, CycleEvent::Checkpointed(result));
            let c3 = if staged is Some {
                cycle_after(c2, pos, CycleEvent::Uploaded)
            } else {
                c2
            };
            let c4 = cycle_after(c3, pos, CycleEvent::Resnapshotted);
            let lost = result.checkpointed_frames > k || result.checkpointed_frames < 0;
            &&& c.next() == CycleAction::StageNext
            &&& c1.next() == CycleAction::Checkpoint(mode)
            &&& staged is Some ==> c2.next() == CycleAction::UploadStaged
            &&& lost ==> c3.next() == CycleAction::Resnapshot && c4.next() == CycleAction::Finish(
                mode,
                result,
            )
            &&& !lost ==> c3.next() == CycleAction::Finish(mode, result)
        }),
{
    let size = 24 + page_size;
    vstd::arithmetic::div_mod::lemma_fundamental_div_mod_converse(
        k * size + over,
        size,
        k as int,
        over as int,
    );
    assert(k * size >= 0 && k * size >= 24 * k) by (nonlinear_arith)
        requires
            size >= 24,
            k >= 0,
    ;
}

/// What is done next is what the cycle says.
pub proof fn lemma_cycle_action(c: CheckpointCycle, a: CycleAction)
    requires
        call_ensures(CheckpointCycle::action, (&c,), a),
    ensures
        a == c.next(),
{
}

/// An event takes the cycle on, and changes nothing else of it.
pub proof fn lemma_cycle_moves_on(cycle: &mut CheckpointCycle, pos: &Position, event: CycleEvent)
    requires
        call_ensures(CheckpointCycle::handle, (cycle, pos, event), ()),
    ensures
        *final(cycle) == cycle_after(*old(cycle), *pos, event),
{
}

} // verus!
