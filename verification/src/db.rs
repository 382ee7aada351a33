//! Control of the SQLite database: checkpoint modes and results, and the order
//! of steps around a checkpoint.
//!
//! A pinned read transaction holds a WAL read-mark, so that no checkpoint of
//! another connection can reset the WAL. Our own checkpoint releases it first
//! and takes it again afterwards.

use crate::text::chars_of;
use crate::wal::format::{WAL_FRAME_HEADER_SIZE, WAL_HEADER_SIZE};
use vstd::prelude::*;

verus! {

/// A SQLite checkpoint mode.
#[derive(Clone, Copy, Debug, PartialEq, Eq, Structural)]
pub enum CheckpointMode {
    /// Checkpoint what it can without blocking; never resets the WAL.
    Passive,
    /// Wait for readers, checkpoint everything.
    Full,
    /// Like FULL, then restart the WAL at the beginning.
    Restart,
    /// Like RESTART, then truncate the `-wal` file to zero bytes.
    Truncate,
}

impl CheckpointMode {
    /// The name of the mode in SQL.
    pub open spec fn sql(self) -> Seq<char> {
        match self {
            CheckpointMode::Passive => "PASSIVE"@,
            CheckpointMode::Full => "FULL"@,
            CheckpointMode::Restart => "RESTART"@,
            CheckpointMode::Truncate => "TRUNCATE"@,
        }
    }

    /// The name of the mode in SQL.
    pub fn as_sql(self) -> (s: &'static str)
        ensures
            s@ == self.sql(),
    {
        match self {
            CheckpointMode::Passive => "PASSIVE",
            CheckpointMode::Full => "FULL",
            CheckpointMode::Restart => "RESTART",
            CheckpointMode::Truncate => "TRUNCATE",
        }
    }
}

/// The result of `PRAGMA wal_checkpoint(...)`.
#[derive(Clone, Copy, Debug, PartialEq, Eq, Structural)]
pub struct CheckpointResult {
    /// True if SQLite couldn't complete the checkpoint (e.g. a reader blocked it).
    pub busy: bool,
    /// Total frames in the WAL at checkpoint time.
    pub log_frames: i64,
    /// Frames actually moved into the database.
    pub checkpointed_frames: i64,
}

impl CheckpointResult {
    /// Every WAL frame was checkpointed into the database.
    pub open spec fn drained(self) -> bool {
        !self.busy && self.log_frames == self.checkpointed_frames
    }

    /// True if every WAL frame was checkpointed into the database.
    pub fn fully_checkpointed(&self) -> (r: bool)
        ensures
            r == self.drained(),
    {
        !self.busy && self.log_frames == self.checkpointed_frames
    }
}

/// How many frames a `-wal` file of `size` bytes holds.
pub open spec fn frame_count(size: u64, page_size: u32) -> u64 {
    if size <= WAL_HEADER_SIZE {
        0
    } else {
        ((size - WAL_HEADER_SIZE) / (WAL_FRAME_HEADER_SIZE + page_size)) as u64
    }
}

/// Number of frames in a `-wal` file of `size` bytes.
pub fn wal_frame_count(size: u64, page_size: u32) -> (n: u64)
    ensures
        n == frame_count(size, page_size),
{
    if size <= WAL_HEADER_SIZE as u64 {
        return 0;
    }
    let frame: u64 = WAL_FRAME_HEADER_SIZE as u64 + page_size as u64;
    let past: u64 = size - WAL_HEADER_SIZE as u64;
    proof {
        assert(past as int / frame as int <= past) by (nonlinear_arith)
            requires
                frame > 0,
                past >= 0,
        ;
    }
    past / frame
}

/// The code of a character, that of its lower-case form for an ASCII letter.
pub open spec fn lower_code(c: char) -> nat {
    if 65 <= c as nat <= 90 {
        c as nat + 32
    } else {
        c as nat
    }
}

/// The two strings are equal but for the case of ASCII letters.
pub open spec fn same_ignoring_case(a: Seq<char>, b: Seq<char>) -> bool {
    &&& a.len() == b.len()
    &&& forall|i: int| 0 <= i < a.len() ==> lower_code(#[trigger] a[i]) == lower_code(b[i])
}

/// Whether a journal mode, as SQLite reports it, is WAL, whatever its case.
pub fn is_wal_mode(mode: &str) -> (r: bool)
    ensures
        r == same_ignoring_case(mode@, seq!['w', 'a', 'l']),
{
    let cs = chars_of(mode);
    if cs.len() != 3 {
        return false;
    }
    let r = lower(cs[0]) == 119 && lower(cs[1]) == 97 && lower(cs[2]) == 108;
    proof {
        let w = seq!['w', 'a', 'l'];
        assert(lower_code(w[0]) == 119 && lower_code(w[1]) == 97 && lower_code(w[2]) == 108);
        if same_ignoring_case(mode@, w) {
            assert(lower_code(mode@[0]) == lower_code(w[0]));
            assert(lower_code(mode@[1]) == lower_code(w[1]));
            assert(lower_code(mode@[2]) == lower_code(w[2]));
        }
    }
    r
}

/// The code of a character, that of its lower-case form for an ASCII letter.
fn lower(c: char) -> (r: u32)
    ensures
        r == lower_code(c),
{
    let n: u32 = c as u32;
    if 65 <= n && n <= 90 {
        n + 32
    } else {
        n
    }
}

/// What to do next around a checkpoint.
#[derive(Clone, Copy, Debug, PartialEq, Eq, Structural)]
pub enum CheckpointAction {
    /// Release the pinned read transaction.
    ReleaseLock,
    /// Run `PRAGMA wal_checkpoint` in this mode.
    Run(CheckpointMode),
    /// Write one row, so that a backfilled WAL restarts into a new generation.
    BumpSeq,
    /// Take the pinned read transaction again.
    AcquireLock,
    /// The checkpoint is over.
    Finish(CheckpointResult),
}

/// How far a checkpoint has come.
#[derive(Clone, Copy, Debug, PartialEq, Eq, Structural)]
pub enum CheckpointStage {
    Start,
    Released,
    Ran(CheckpointResult),
    Bumped(CheckpointResult),
    Reacquired(CheckpointResult),
}

/// A checkpoint in progress: the caller performs each action and reports it.
#[derive(Clone, Copy, Debug, PartialEq, Eq, Structural)]
pub struct CheckpointRun {
    pub mode: CheckpointMode,
    /// Whether the read transaction was held at the start.
    pub had_lock: bool,
    pub stage: CheckpointStage,
}

impl CheckpointRun {
    /// What to do next: release the lock if it was held, run the checkpoint,
    /// bump the sequence row after a passive one that drained the WAL, and take
    /// the lock again if it was held.
    pub open spec fn next(self) -> CheckpointAction {
        match self.stage {
            CheckpointStage::Start => if self.had_lock {
                CheckpointAction::ReleaseLock
            } else {
                CheckpointAction::Run(self.mode)
            },
            CheckpointStage::Released => CheckpointAction::Run(self.mode),
            CheckpointStage::Ran(r) => if self.mode == CheckpointMode::Passive && r.drained() {
                CheckpointAction::BumpSeq
            } else if self.had_lock {
                CheckpointAction::AcquireLock
            } else {
                CheckpointAction::Finish(r)
            },
            CheckpointStage::Bumped(r) => if self.had_lock {
                CheckpointAction::AcquireLock
            } else {
                CheckpointAction::Finish(r)
            },
            CheckpointStage::Reacquired(r) => CheckpointAction::Finish(r),
        }
    }

    /// Whether the read transaction is held at this stage.
    pub open spec fn lock_held(self) -> bool {
        match self.stage {
            CheckpointStage::Start => self.had_lock,
            CheckpointStage::Reacquired(_) => true,
            _ => false,
        }
    }

    /// The stage after the next action, whose result is `result` where it ran
    /// the checkpoint.
    pub open spec fn after(self, result: CheckpointResult) -> CheckpointStage {
        match self.next() {
            CheckpointAction::ReleaseLock => CheckpointStage::Released,
            CheckpointAction::Run(_) => CheckpointStage::Ran(result),
            CheckpointAction::BumpSeq => match self.stage {
                CheckpointStage::Ran(r) => CheckpointStage::Bumped(r),
                s => s,
            },
            CheckpointAction::AcquireLock => match self.stage {
                CheckpointStage::Ran(r) => CheckpointStage::Reacquired(r),
                CheckpointStage::Bumped(r) => CheckpointStage::Reacquired(r),
                s => s,
            },
            CheckpointAction::Finish(_) => self.stage,
        }
    }

    /// Starts a checkpoint.
    pub fn begin(mode: CheckpointMode, had_lock: bool) -> (r: CheckpointRun)
        ensures
            r == (CheckpointRun { mode, had_lock, stage: CheckpointStage::Start }),
    {
        CheckpointRun { mode, had_lock, stage: CheckpointStage::Start }
    }

    /// What to do next.
    pub fn action(&self) -> (a: CheckpointAction)
        ensures
            a == self.next(),
    {
        match self.stage {
            CheckpointStage::Start => {
                if self.had_lock {
                    CheckpointAction::ReleaseLock
                } else {
                    CheckpointAction::Run(self.mode)
                }
            },
            CheckpointStage::Released => CheckpointAction::Run(self.mode),
            CheckpointStage::Ran(r) => {
                if self.mode == CheckpointMode::Passive && r.fully_checkpointed() {
                    CheckpointAction::BumpSeq
                } else if self.had_lock {
                    CheckpointAction::AcquireLock
                } else {
                    CheckpointAction::Finish(r)
                }
            },
            CheckpointStage::Bumped(r) => {
                if self.had_lock {
                    CheckpointAction::AcquireLock
                } else {
                    CheckpointAction::Finish(r)
                }
            },
            CheckpointStage::Reacquired(r) => CheckpointAction::Finish(r),
        }
    }

    /// Records that the next action was performed; `result` is what the
    /// checkpoint returned, where the action was to run it.
    pub fn performed(&mut self, result: CheckpointResult)
        ensures
            final(self).mode == old(self).mode,
            final(self).had_lock == old(self).had_lock,
            final(self).stage == old(self).after(result),
    {
        self.stage = match self.action() {
            CheckpointAction::ReleaseLock => CheckpointStage::Released,
            CheckpointAction::Run(_) => CheckpointStage::Ran(result),
            CheckpointAction::BumpSeq => match self.stage {
                CheckpointStage::Ran(r) => CheckpointStage::Bumped(r),
                s => s,
            },
            CheckpointAction::AcquireLock => match self.stage {
                CheckpointStage::Ran(r) => CheckpointStage::Reacquired(r),
                CheckpointStage::Bumped(r) => CheckpointStage::Reacquired(r),
                s => s,
            },
            CheckpointAction::Finish(_) => self.stage,
        };
    }

    /// The stages that a run can be in.
    pub open spec fn reachable(self) -> bool {
        match self.stage {
            CheckpointStage::Start => true,
            CheckpointStage::Released => self.had_lock,
            CheckpointStage::Ran(_) => true,
            CheckpointStage::Bumped(r) => self.mode == CheckpointMode::Passive && r.drained(),
            CheckpointStage::Reacquired(_) => self.had_lock,
        }
    }

    /// The checkpoint and the write after it never run under our own read
    /// transaction, the transaction is held at the end exactly if it was held at
    /// the start, and every step leads to another reachable stage.
    pub proof fn lemma_lock_discipline(self, result: CheckpointResult)
        requires
            self.reachable(),
        ensures
            self.next() is Run ==> !self.lock_held(),
            self.next() is BumpSeq ==> !self.lock_held(),
            self.next() is AcquireLock ==> !self.lock_held(),
            self.next() is ReleaseLock ==> self.lock_held(),
            self.next() is Finish ==> self.lock_held() == self.had_lock,
            (CheckpointRun { stage: self.after(result), ..self }).reachable(),
    {
    }
}

/// The run after its next action, whose result is `result` where it ran the checkpoint.
pub open spec fn run_after(r: CheckpointRun, result: CheckpointResult) -> CheckpointRun {
    CheckpointRun { stage: r.after(result), ..r }
}

/// The order of a checkpoint: the read transaction is released first if it was held, then
/// the checkpoint runs, then, after a passive one that left nothing in the WAL, a row is
/// written, then the transaction is taken again if it was held. What is reported is what
/// the checkpoint returned.
pub proof fn lemma_checkpoint_runs_in_order(
    mode: CheckpointMode,
    had_lock: bool,
    result: CheckpointResult,
    r: CheckpointRun,
)
    requires
        call_ensures(CheckpointRun::begin, (mode, had_lock), r),
    ensures
        ({
            let bump = mode == CheckpointMode::Passive && !result.busy && result.log_frames
                == result.checkpointed_frames;
            let r0 = if had_lock {
                run_after(r, result)
            } else {
                r
            };
            let r1 = run_after(r0, result);
            let r2 = if bump {
                run_after(r1, result)
            } else {
                r1
            };
            let r3 = if had_lock {
                run_after(r2, result)
            } else {
                r2
            };
            &&& had_lock ==> r.next() == CheckpointAction::ReleaseLock
            &&& r0.next() == CheckpointAction::Run(mode)
            &&& bump ==> r1.next() == CheckpointAction::BumpSeq
            &&& had_lock ==> r2.next() == CheckpointAction::AcquireLock
            &&& r3.next() == CheckpointAction::Finish(result)
        }),
{
}

/// What is done next is what the run says.
pub proof fn lemma_checkpoint_action(r: CheckpointRun, a: CheckpointAction)
    requires
        call_ensures(CheckpointRun::action, (&r,), a),
    ensures
        a == r.next(),
{
}

/// A WAL is fully checkpointed where nothing blocked the checkpoint and all its frames were
/// moved.
pub proof fn lemma_fully_checkpointed(r: CheckpointResult, full: bool)
    requires
        call_ensures(CheckpointResult::fully_checkpointed, (&r,), full),
    ensures
        full <==> !r.busy && r.log_frames == r.checkpointed_frames,
{
}

/// Behind the header and `k` frames, and up to a frame more, a file holds `k` frames.
pub proof fn lemma_wal_file_frames(size: u64, page_size: u32, k: nat, over: nat, n: u64)
    requires
        size == 32 + k * (24 + page_size) + over,
        over < 24 + page_size,
        call_ensures(wal_frame_count, (size, page_size), n),
    ensures
        n == k,
{
    let frame = 24 + page_size;
    vstd::arithmetic::div_mod::lemma_fundamental_div_mod_converse(
        k * frame + over,
        frame,
        k as int,
        over as int,
    );
    assert(k * frame >= k) by (nonlinear_arith)
        requires
            frame >= 1,
            k >= 0,
    ;
}

proof fn lemma_letter(c: char, lower: char, upper: char)
    requires
        97 <= lower as nat <= 122,
        upper as nat + 32 == lower as nat,
    ensures
        lower_code(c) == lower as nat <==> c == lower || c == upper,
{
}

/// A journal mode is WAL in any case of its letters, and nothing else is.
pub proof fn lemma_wal_mode(mode: &str, r: bool)
    requires
        call_ensures(is_wal_mode, (mode,), r),
    ensures
        r <==> {
            &&& mode@.len() == 3
            &&& mode@[0] == 'w' || mode@[0] == 'W'
            &&& mode@[1] == 'a' || mode@[1] == 'A'
            &&& mode@[2] == 'l' || mode@[2] == 'L'
        },
{
    let w = seq!['w', 'a', 'l'];
    assert(lower_code(w[0]) == 119 && lower_code(w[1]) == 97 && lower_code(w[2]) == 108);
    lemma_letter(mode@[0], 'w', 'W');
    lemma_letter(mode@[1], 'a', 'A');
    lemma_letter(mode@[2], 'l', 'L');
    if r {
        assert(lower_code(mode@[0]) == lower_code(w[0]));
        assert(lower_code(mode@[1]) == lower_code(w[1]));
        assert(lower_code(mode@[2]) == lower_code(w[2]));
    }
}

/// The modes are named in SQL as SQLite names them.
pub proof fn lemma_mode_names(m: CheckpointMode, s: &'static str)
    requires
        call_ensures(CheckpointMode::as_sql, (m,), s),
    ensures
        m == CheckpointMode::Passive ==> s@ == "PASSIVE"@,
        m == CheckpointMode::Full ==> s@ == "FULL"@,
        m == CheckpointMode::Restart ==> s@ == "RESTART"@,
        m == CheckpointMode::Truncate ==> s@ == "TRUNCATE"@,
{
}

/// Performing an action takes the run to the next one, and changes nothing else of it.
pub proof fn lemma_run_moves_on(run: &mut CheckpointRun, result: CheckpointResult)
    requires
        call_ensures(CheckpointRun::performed, (run, result), ()),
    ensures
        *final(run) == run_after(*old(run), result),
{
}

} // verus!
