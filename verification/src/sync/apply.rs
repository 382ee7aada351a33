//! Applying a plan straight to a database file, newest file first.
//!
//! Walking backwards, the first file to carry a page holds its latest version, so
//! every page is written once and older versions are skipped. Only one page is
//! decoded at a time. Pages beyond the final size are dropped: the database may
//! have shrunk below what an older file carried.
//!
//! [`ApplyRun`] decides; the caller performs each [`ApplyAction`] on the disk and
//! on the replica. A marker beside the database says what its file is: while the
//! file is a mixture of two images it reads [`Marker::Applying`], and only once
//! every page is durable does it read [`Marker::Clean`].

use crate::ltx::decoder::{decode_indexed_page, indexed_page_of};
use crate::ltx::error::LtxError;
use crate::ltx::format::{Header, header_of, lock_page, lock_pgno, valid_page_size};
use crate::ltx::index::{PageIndexElem, page_index, page_index_of};
use crate::sync::error::SyncError;
use crate::sync::image::{image_len, lemma_page_bounds, page_start};
use crate::sync::plan::FileKey;
use std::collections::HashSet;
use vstd::prelude::*;

verus! {

broadcast use vstd::std_specs::hash::group_hash_axioms;

/// The pages already written: the first claim on a page succeeds, and every later
/// one is for an older version to skip.
pub trait PageSet: Sized {
    /// The pages claimed so far.
    spec fn claimed(&self) -> Set<u32>;

    /// The pages below this number can be claimed.
    spec fn room(&self) -> int;

    /// Marks `pgno` written, returning `true` only if this is the first claim.
    fn claim(&mut self, pgno: u32) -> (first: bool)
        ensures
            final(self).room() == old(self).room(),
            first == (pgno < old(self).room() && !old(self).claimed().contains(pgno)),
            final(self).claimed() == if pgno < old(self).room() {
                old(self).claimed().insert(pgno)
            } else {
                old(self).claimed()
            },
    ;
}

/// A flag per page. For a full restore, which writes every page anyway.
pub struct DenseSet(Vec<bool>);

impl DenseSet {
    /// No page of `0..=commit` claimed.
    pub fn new(commit: u32) -> (s: DenseSet)
        requires
            commit < usize::MAX,
        ensures
            s.claimed() == Set::<u32>::empty(),
            s.room() == commit + 1,
    {
        let n: usize = commit as usize + 1;
        let flags: Vec<bool> = vec![false; n];
        let s = DenseSet(flags);
        assert(s.claimed() =~= Set::<u32>::empty());
        s
    }
}

impl PageSet for DenseSet {
    closed spec fn claimed(&self) -> Set<u32> {
        Set::new(|p: u32| p < self.0@.len() && self.0@[p as int])
    }

    closed spec fn room(&self) -> int {
        self.0@.len() as int
    }

    fn claim(&mut self, pgno: u32) -> (first: bool) {
        let ghost before = *self;
        if (pgno as u64) < self.0.len() as u64 {
            let i: usize = pgno as usize;
            let first: bool = !self.0[i];
            self.0.set(i, true);
            assert(self.claimed() =~= before.claimed().insert(pgno));
            first
        } else {
            false
        }
    }
}

/// A set of page numbers. For a delta, which claims only the pages it carries.
pub struct SparseSet(HashSet<u32>);

impl SparseSet {
    /// No page claimed.
    pub fn new() -> (s: SparseSet)
        ensures
            s.claimed() == Set::<u32>::empty(),
            s.room() == 0x1_0000_0000,
    {
        SparseSet(HashSet::new())
    }
}

impl PageSet for SparseSet {
    closed spec fn claimed(&self) -> Set<u32> {
        self.0@
    }

    closed spec fn room(&self) -> int {
        0x1_0000_0000
    }

    fn claim(&mut self, pgno: u32) -> (first: bool) {
        let ghost before = *self;
        let first: bool = self.0.insert(pgno);
        assert(self.claimed() =~= before.claimed().insert(pgno));
        first
    }
}

/// What a database file is, as recorded beside it.
///
/// `Applying` is made durable before the first change of the file, and `Clean`
/// replaces it after the last one is durable. Where an apply is interrupted,
/// `Applying` stays behind, and the file is known to be neither image.
#[derive(Clone, Copy, Debug, PartialEq, Eq)]
pub enum Marker {
    Clean { txid: u64, page_size: u32, commit: u32, file_len: u64 },
    Applying { from: u64, to: u64 },
}

/// The shape that a delta leaves the file in.
#[derive(Clone, Copy, Debug, PartialEq, Eq)]
pub struct DeltaShape {
    pub page_size: u32,
    /// The size of the database, in pages, once the delta has landed.
    pub final_commit: u32,
    /// The smallest size anywhere in the delta.
    pub min_commit: u32,
}

/// What to do next when applying a plan.
#[derive(Debug)]
pub enum ApplyAction {
    /// Replace the marker beside the database, durably.
    WriteMarker(Marker),
    /// Create the database file, empty.
    Create,
    /// Open the database file for writing, as it is.
    Open,
    /// Cut or zero-fill the file to this many bytes.
    SetLen(u64),
    /// Read this file of the replica and supply its bytes.
    Fetch(FileKey),
    /// Write a page at this offset.
    WritePage { offset: u64, data: Vec<u8> },
    /// Make the contents of the file durable.
    SyncAll,
    /// The file now holds the database as of this TXID.
    Done(u64),
}

/// What to do next when applying a plan.
#[verifier::ext_equal]
pub enum ActionView {
    WriteMarker(Marker),
    Create,
    Open,
    SetLen(u64),
    Fetch(FileKey),
    WritePage { offset: u64, data: Seq<u8> },
    SyncAll,
    Done(u64),
}

impl View for ApplyAction {
    type V = ActionView;

    open spec fn view(&self) -> ActionView {
        match *self {
            ApplyAction::WriteMarker(m) => ActionView::WriteMarker(m),
            ApplyAction::Create => ActionView::Create,
            ApplyAction::Open => ActionView::Open,
            ApplyAction::SetLen(n) => ActionView::SetLen(n),
            ApplyAction::Fetch(k) => ActionView::Fetch(k),
            ApplyAction::WritePage { offset, data } => ActionView::WritePage {
                offset,
                data: data@,
            },
            ApplyAction::SyncAll => ActionView::SyncAll,
            ApplyAction::Done(t) => ActionView::Done(t),
        }
    }
}

/// How far a run has come.
#[derive(Clone, Copy, Debug, PartialEq, Eq, Structural)]
pub enum ApplyStage {
    /// Nothing was done yet.
    Begin,
    /// The marker says that an apply is in flight.
    Marked,
    /// The existing file is open and is to be cut.
    Cut,
    /// The file is to take on its final size.
    Grow,
    /// The next file is to be read.
    Next,
    /// Waiting for the bytes of a file.
    Await,
    /// Writing the pages of a file.
    Pages,
    /// Every page is written and durable.
    Seal,
    /// The marker says that the file is clean.
    Sealed,
    /// The run met an error.
    Failed,
}

/// The state of a run.
#[verifier::ext_equal]
pub struct RunView {
    pub plan: Seq<FileKey>,
    pub from: u64,
    pub to: u64,
    pub page_size: u32,
    pub commit: u32,
    /// For a delta, the size in pages that the existing file is cut to first.
    pub floor: Option<u32>,
    pub claimed: Set<u32>,
    pub stage: ApplyStage,
    /// The files of the plan that are still to be read, or being read.
    pub left: nat,
    pub bytes: Seq<u8>,
    pub index: Seq<PageIndexElem>,
    pub cursor: nat,
}

/// The final size of the file.
pub open spec fn run_len(v: RunView) -> u64 {
    image_len(v.commit, v.page_size) as u64
}

/// Whether a walk writes the page `pgno`.
pub open spec fn takes(pgno: u32, commit: u32, claimed: Set<u32>) -> bool {
    1 <= pgno <= commit && !claimed.contains(pgno)
}

/// Reads the next file, or ends the walk.
pub open spec fn next_file(v: RunView) -> (RunView, Result<ActionView, SyncError>) {
    if v.left == 0 {
        (RunView { stage: ApplyStage::Seal, ..v }, Ok(ActionView::SyncAll))
    } else {
        (
            RunView { stage: ApplyStage::Await, ..v },
            Ok(ActionView::Fetch(v.plan[v.left - 1])),
        )
    }
}

/// Writes the next page of the current file that is not written yet.
pub open spec fn next_page(v: RunView) -> (RunView, Result<ActionView, SyncError>)
    decreases v.index.len() - v.cursor,
{
    if v.cursor >= v.index.len() {
        next_file(RunView { left: (v.left - 1) as nat, ..v })
    } else {
        match indexed_page_of(v.bytes, v.index[v.cursor as int], v.page_size as nat) {
            Err(e) => (RunView { stage: ApplyStage::Failed, ..v }, Err(SyncError::Ltx(e))),
            Ok((ph, d)) => if takes(ph.pgno, v.commit, v.claimed) {
                (
                    RunView {
                        cursor: v.cursor + 1,
                        claimed: v.claimed.insert(ph.pgno),
                        ..v
                    },
                    Ok(
                        ActionView::WritePage {
                            offset: page_start(ph.pgno, v.page_size) as u64,
                            data: d,
                        },
                    ),
                )
            } else {
                next_page(RunView { cursor: v.cursor + 1, ..v })
            },
        }
    }
}

/// What a run does next.
pub open spec fn run_step(v: RunView) -> (RunView, Result<ActionView, SyncError>) {
    match v.stage {
        ApplyStage::Begin => (
            RunView { stage: ApplyStage::Marked, ..v },
            Ok(ActionView::WriteMarker(Marker::Applying { from: v.from, to: v.to })),
        ),
        ApplyStage::Marked => match v.floor {
            None => (RunView { stage: ApplyStage::Grow, ..v }, Ok(ActionView::Create)),
            Some(_) => (RunView { stage: ApplyStage::Cut, ..v }, Ok(ActionView::Open)),
        },
        ApplyStage::Cut => (
            RunView { stage: ApplyStage::Grow, ..v },
            Ok(ActionView::SetLen(image_len(v.floor->0, v.page_size) as u64)),
        ),
        ApplyStage::Grow => (
            RunView { stage: ApplyStage::Next, ..v },
            Ok(ActionView::SetLen(run_len(v))),
        ),
        ApplyStage::Next => next_file(v),
        ApplyStage::Pages => next_page(v),
        ApplyStage::Seal => (
            RunView { stage: ApplyStage::Sealed, ..v },
            Ok(
                ActionView::WriteMarker(
                    Marker::Clean {
                        txid: v.to,
                        page_size: v.page_size,
                        commit: v.commit,
                        file_len: run_len(v),
                    },
                ),
            ),
        ),
        _ => (v, Ok(ActionView::Done(v.to))),
    }
}

/// A run after it was handed the bytes of a file.
pub open spec fn supplied(v: RunView, b: Seq<u8>) -> (RunView, Result<(), SyncError>) {
    match page_index_of(b) {
        Err(e) => (RunView { stage: ApplyStage::Failed, ..v }, Err(SyncError::Ltx(e))),
        Ok(es) => (
            RunView { stage: ApplyStage::Pages, bytes: b, index: es, cursor: 0, ..v },
            Ok(()),
        ),
    }
}

/// A run of a full restore that has just begun.
pub open spec fn full_run(plan: Seq<FileKey>, h: Header) -> RunView {
    RunView {
        plan,
        from: 0,
        to: plan.last().2,
        page_size: h.page_size,
        commit: h.commit,
        floor: None,
        claimed: if lock_page(h.page_size) <= h.commit {
            set![lock_page(h.page_size)]
        } else {
            Set::empty()
        },
        stage: ApplyStage::Begin,
        left: plan.len(),
        bytes: Seq::empty(),
        index: Seq::empty(),
        cursor: 0,
    }
}

/// A run of a delta that has just begun.
pub open spec fn delta_run(plan: Seq<FileKey>, from: u64, shape: DeltaShape) -> RunView {
    RunView {
        plan,
        from,
        to: plan.last().2,
        page_size: shape.page_size,
        commit: shape.final_commit,
        floor: Some(shape.min_commit),
        claimed: set![lock_page(shape.page_size)],
        stage: ApplyStage::Begin,
        left: plan.len(),
        bytes: Seq::empty(),
        index: Seq::empty(),
        cursor: 0,
    }
}

/// Applies a restore plan (files in ascending TXID order) to a file, newest
/// first.
pub struct ApplyRun<S: PageSet> {
    plan: Vec<FileKey>,
    from: u64,
    to: u64,
    page_size: u32,
    commit: u32,
    floor: Option<u32>,
    set: S,
    stage: ApplyStage,
    left: usize,
    bytes: Vec<u8>,
    index: Vec<PageIndexElem>,
    cursor: usize,
}

impl<S: PageSet> View for ApplyRun<S> {
    type V = RunView;

    closed spec fn view(&self) -> RunView {
        RunView {
            plan: self.plan@,
            from: self.from,
            to: self.to,
            page_size: self.page_size,
            commit: self.commit,
            floor: self.floor,
            claimed: self.set.claimed(),
            stage: self.stage,
            left: self.left as nat,
            bytes: self.bytes@,
            index: self.index@,
            cursor: self.cursor as nat,
        }
    }
}

impl ApplyRun<DenseSet> {
    /// Begins a full restore. `head` is the start of the newest file of the plan,
    /// whose header fixes the final size of the database.
    pub fn full(plan: Vec<FileKey>, head: &[u8]) -> (r: Result<ApplyRun<DenseSet>, SyncError>)
        ensures
            match r {
                Ok(run) => {
                    &&& plan@.len() > 0
                    &&& header_of(head@) is Ok
                    &&& header_of(head@)->Ok_0.commit < usize::MAX
                    &&& run@ == full_run(plan@, header_of(head@)->Ok_0)
                    &&& run.wf()
                },
                Err(SyncError::NoSnapshot) => plan@.len() == 0,
                Err(SyncError::Ltx(e)) => {
                    &&& plan@.len() > 0
                    &&& match header_of(head@) {
                        Err(se) => e == se,
                        Ok(h) => h.commit >= usize::MAX && e == (LtxError::ImageTooLarge {
                            pages: h.commit as u64,
                        }),
                    }
                },
                Err(_) => false,
            },
    {
        let n: usize = plan.len();
        if n == 0 {
            return Err(SyncError::NoSnapshot);
        }
        let h = match Header::decode(head) {
            Ok(h) => h,
            Err(e) => return Err(SyncError::Ltx(e)),
        };
        if h.commit as u64 >= usize::MAX as u64 {
            return Err(SyncError::Ltx(LtxError::ImageTooLarge { pages: h.commit as u64 }));
        }
        let to: u64 = plan[n - 1].2;
        let mut set = DenseSet::new(h.commit);
        // The lock page is never encoded and stays zero.
        let _ = set.claim(lock_pgno(h.page_size));
        let run = ApplyRun {
            plan,
            from: 0,
            to,
            page_size: h.page_size,
            commit: h.commit,
            floor: None,
            set,
            stage: ApplyStage::Begin,
            left: n,
            bytes: Vec::new(),
            index: Vec::new(),
            cursor: 0,
        };
        assert(run@ =~= full_run(plan@, h));
        Ok(run)
    }
}

impl ApplyRun<SparseSet> {
    /// Begins applying the delta `plan` to a file that holds the database as of
    /// `from`.
    ///
    /// The file is cut to the smallest size anywhere in the delta and then takes
    /// on the final one, so that whatever lay past the low-water mark reads as
    /// zero, as it does in a full restore.
    pub fn delta(plan: Vec<FileKey>, from: u64, shape: DeltaShape) -> (run: ApplyRun<SparseSet>)
        requires
            plan@.len() > 0,
            valid_page_size(shape.page_size),
        ensures
            run@ == delta_run(plan@, from, shape),
            run.wf(),
    {
        let n: usize = plan.len();
        let to: u64 = plan[n - 1].2;
        let mut set = SparseSet::new();
        let _ = set.claim(lock_pgno(shape.page_size));
        let run = ApplyRun {
            plan,
            from,
            to,
            page_size: shape.page_size,
            commit: shape.final_commit,
            floor: Some(shape.min_commit),
            set,
            stage: ApplyStage::Begin,
            left: n,
            bytes: Vec::new(),
            index: Vec::new(),
            cursor: 0,
        };
        assert(run@ =~= delta_run(plan@, from, shape));
        run
    }
}

/// What always holds of a run.
pub open spec fn run_wf(v: RunView) -> bool {
    &&& valid_page_size(v.page_size)
    &&& v.left <= v.plan.len()
    &&& v.cursor <= v.index.len()
    &&& v.stage == ApplyStage::Cut ==> v.floor is Some
    &&& (v.stage == ApplyStage::Await || v.stage == ApplyStage::Pages) ==> v.left > 0
}

impl<S: PageSet> ApplyRun<S> {
    /// What always holds of a run.
    pub closed spec fn wf(&self) -> bool {
        &&& run_wf(self@)
        &&& self.set.room() > self.commit
    }

    fn file_step(&mut self) -> (r: Result<ApplyAction, SyncError>)
        requires
            old(self).wf(),
        ensures
            final(self).wf(),
            final(self)@ == next_file(old(self)@).0,
            match (r, next_file(old(self)@).1) {
                (Ok(a), Ok(s)) => a@ == s,
                (Err(e), Err(se)) => e == se,
                _ => false,
            },
    {
        if self.left == 0 {
            self.stage = ApplyStage::Seal;
            Ok(ApplyAction::SyncAll)
        } else {
            self.stage = ApplyStage::Await;
            Ok(ApplyAction::Fetch(self.plan[self.left - 1]))
        }
    }

    fn page_step(&mut self) -> (r: Result<ApplyAction, SyncError>)
        requires
            old(self).wf(),
            old(self)@.stage == ApplyStage::Pages,
        ensures
            final(self).wf(),
            final(self)@ == next_page(old(self)@).0,
            match (r, next_page(old(self)@).1) {
                (Ok(a), Ok(s)) => a@ == s,
                (Err(e), Err(se)) => e == se,
                _ => false,
            },
    {
        while self.cursor < self.index.len()
            invariant
                self.wf(),
                self@.stage == ApplyStage::Pages,
                next_page(self@) == next_page(old(self)@),
            decreases self.index@.len() - self.cursor,
        {
            let e = self.index[self.cursor];
            let (ph, data) = match decode_indexed_page(&self.bytes, e, self.page_size as usize) {
                Ok(x) => x,
                Err(err) => {
                    self.stage = ApplyStage::Failed;
                    return Err(SyncError::Ltx(err));
                },
            };
            let ghost before = self@;
            self.cursor = self.cursor + 1;
            if 1 <= ph.pgno && ph.pgno <= self.commit && self.set.claim(ph.pgno) {
                proof {
                    lemma_page_bounds(ph.pgno, self.commit, self.page_size);
                    lemma_offset_fits(self.commit, self.page_size);
                    assert(self@ =~= (RunView {
                        cursor: before.cursor + 1,
                        claimed: before.claimed.insert(ph.pgno),
                        ..before
                    }));
                }
                let offset: u64 = (ph.pgno - 1) as u64 * self.page_size as u64;
                return Ok(ApplyAction::WritePage { offset, data });
            }
            proof {
                if before.claimed.contains(ph.pgno) {
                    assert(before.claimed.insert(ph.pgno) =~= before.claimed);
                }
                assert(self@ =~= (RunView { cursor: before.cursor + 1, ..before }));
            }
        }
        self.stage = ApplyStage::Next;
        self.left = self.left - 1;
        self.file_step()
    }

    /// Gives the next action.
    pub fn next(&mut self) -> (r: Result<ApplyAction, SyncError>)
        requires
            old(self).wf(),
            old(self)@.stage != ApplyStage::Await,
            old(self)@.stage != ApplyStage::Failed,
        ensures
            final(self).wf(),
            final(self)@ == run_step(old(self)@).0,
            match (r, run_step(old(self)@).1) {
                (Ok(a), Ok(s)) => a@ == s,
                (Err(e), Err(se)) => e == se,
                _ => false,
            },
    {
        proof {
            lemma_offset_fits(self.commit, self.page_size);
            if self.floor is Some {
                lemma_offset_fits(self.floor->0, self.page_size);
            }
        }
        match self.stage {
            ApplyStage::Begin => {
                self.stage = ApplyStage::Marked;
                Ok(ApplyAction::WriteMarker(Marker::Applying { from: self.from, to: self.to }))
            },
            ApplyStage::Marked => {
                if self.floor.is_none() {
                    self.stage = ApplyStage::Grow;
                    Ok(ApplyAction::Create)
                } else {
                    self.stage = ApplyStage::Cut;
                    Ok(ApplyAction::Open)
                }
            },
            ApplyStage::Cut => {
                let floor: u32 = self.floor.unwrap();
                self.stage = ApplyStage::Grow;
                Ok(ApplyAction::SetLen(floor as u64 * self.page_size as u64))
            },
            ApplyStage::Grow => {
                self.stage = ApplyStage::Next;
                Ok(ApplyAction::SetLen(self.commit as u64 * self.page_size as u64))
            },
            ApplyStage::Next => self.file_step(),
            ApplyStage::Pages => self.page_step(),
            ApplyStage::Seal => {
                self.stage = ApplyStage::Sealed;
                let file_len: u64 = self.commit as u64 * self.page_size as u64;
                Ok(
                    ApplyAction::WriteMarker(
                        Marker::Clean {
                            txid: self.to,
                            page_size: self.page_size,
                            commit: self.commit,
                            file_len,
                        },
                    ),
                )
            },
            _ => Ok(ApplyAction::Done(self.to)),
        }
    }

    /// Hands the run the bytes of the file it asked for.
    pub fn supply(&mut self, bytes: Vec<u8>) -> (r: Result<(), SyncError>)
        requires
            old(self).wf(),
            old(self)@.stage == ApplyStage::Await,
        ensures
            final(self).wf(),
            final(self)@ == supplied(old(self)@, bytes@).0,
            r == supplied(old(self)@, bytes@).1,
    {
        match page_index(&bytes) {
            Err(e) => {
                self.stage = ApplyStage::Failed;
                Err(SyncError::Ltx(e))
            },
            Ok(es) => {
                self.stage = ApplyStage::Pages;
                self.bytes = bytes;
                self.index = es;
                self.cursor = 0;
                Ok(())
            },
        }
    }
}

pub proof fn lemma_offset_fits(commit: u32, page_size: u32)
    requires
        page_size <= 65536,
    ensures
        0 <= commit * page_size <= 0xFFFF_FFFF * 65536,
        image_len(commit, page_size) <= u64::MAX,
{
    assert(0 <= commit * page_size <= 0xFFFF_FFFF * 65536) by (nonlinear_arith)
        requires
            page_size <= 65536,
    ;
}

} // verus!
