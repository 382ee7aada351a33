//! Deciding how to rebuild a database from a replica: up to a point in time, or
//! from what is already there.
//!
//! Nothing inside a restored file says which TXID it reflects. The marker beside
//! it does, and [`plan_catch_up`] trusts nothing else: wherever the marker does
//! not vouch for the file, or the chain does not lead on from it, the whole image
//! is rebuilt.

use crate::ltx::error::LtxError;
use crate::ltx::format::{Header, field, header_of, valid_page_size};
use crate::sync::apply::{DeltaShape, Marker, RunView, run_len};
use crate::sync::disk::landed;
use crate::sync::error::SyncError;
use crate::sync::history::{
    History, chained, end_before, fits_in_memory, is_image, key_records,
    lemma_full_restore_oldest_first, lemma_plan_of_files, lemma_run_is_chained, lowest_commit,
    plan_contents, plan_records, sound_history,
};
use crate::sync::image::applied_all;
use crate::sync::plan::{
    FileKey, delta_plan, extends, full_plan, head, head_txid, is_run, lemma_cover_is_run,
    lemma_deletion_keeps_restorable, lemma_plan_to_never_overshoots, lemma_plan_to_reaches_furthest,
    lemma_run_reach_bound, lemma_run_survives, lemma_up_to, plan_restore_from, plan_restore_to,
    up_to,
};
use crate::text::{decimal, push_decimal};
use crate::wire::be_u16;
use vstd::prelude::*;

verus! {

/// A point-in-time restore result: the database image and the TXID it reflects,
/// which may be earlier than requested if the exact point was compacted away.
#[derive(Clone, Debug)]
pub struct RestoreResult {
    pub image: Vec<u8>,
    pub txid: u64,
}

/// The plan for a restore to `target`, and the TXID that it ends at.
pub open spec fn plan_to(files: Seq<FileKey>, target: u64) -> Result<(Seq<FileKey>, u64), SyncError> {
    match full_plan(up_to(files, target)) {
        Ok(p) => Ok((p, p.last().2)),
        Err(_) => Err(SyncError::TxidTooOld { requested: target }),
    }
}

/// Plans a restore to the newest state whose TXID is at or before `target_txid`,
/// and gives that TXID. A target before the oldest restorable point is
/// [`SyncError::TxidTooOld`].
pub fn plan_restore_to_txid(files: &[FileKey], target_txid: u64) -> (r: Result<
    (Vec<FileKey>, u64),
    SyncError,
>)
    ensures
        match (r, plan_to(files@, target_txid)) {
            (Ok((p, t)), Ok((sp, st))) => p@ == sp && t == st && sp.len() > 0,
            (Err(e), Err(se)) => e == se,
            _ => false,
        },
{
    match plan_restore_to(files, target_txid) {
        Ok(plan) => {
            let txid: u64 = plan[plan.len() - 1].2;
            Ok((plan, txid))
        },
        Err(_) => Err(SyncError::TxidTooOld { requested: target_txid }),
    }
}

// --- Restoring to an instant ---

/// The target TXID after the first `n` files have been looked at: the largest
/// `max_txid` of those whose header bears a timestamp at or before `timestamp`.
/// A file that cannot raise it is not looked at.
pub open spec fn scan_of(
    files: Seq<FileKey>,
    heads: spec_fn(FileKey) -> Seq<u8>,
    timestamp: i64,
    n: nat,
) -> Result<u64, SyncError>
    decreases n,
{
    if n == 0 {
        Ok(0)
    } else {
        match scan_of(files, heads, timestamp, (n - 1) as nat) {
            Err(e) => Err(e),
            Ok(t) => if files[n - 1].2 <= t {
                Ok(t)
            } else {
                match header_of(heads(files[n - 1])) {
                    Err(e) => Err(SyncError::Ltx(e)),
                    Ok(h) => if h.timestamp <= timestamp {
                        Ok(files[n - 1].2)
                    } else {
                        Ok(t)
                    },
                }
            },
        }
    }
}

/// The first file from `i` on that ends after `target`, or the number of files.
pub open spec fn next_candidate(files: Seq<FileKey>, i: nat, target: u64) -> nat
    decreases files.len() - i,
{
    if i >= files.len() || files[i as int].2 > target {
        i
    } else {
        next_candidate(files, i + 1, target)
    }
}

/// Finds the TXID to restore to for an instant.
///
/// A file's timestamp is that of its newest content. All levels are looked at, so
/// a recent snapshot does not hide the older files that carry earlier points.
pub struct TimestampScan {
    files: Vec<FileKey>,
    timestamp: i64,
    next: usize,
    target: u64,
}

impl TimestampScan {
    /// The files to scan.
    pub closed spec fn files(&self) -> Seq<FileKey> {
        self.files@
    }

    /// The instant, in milliseconds.
    pub closed spec fn instant(&self) -> i64 {
        self.timestamp
    }

    /// The files looked at or passed over so far.
    pub closed spec fn seen(&self) -> nat {
        self.next as nat
    }

    /// The target found so far.
    pub closed spec fn target(&self) -> u64 {
        self.target
    }

    /// What always holds of a scan.
    pub closed spec fn wf(&self) -> bool {
        self.next <= self.files@.len()
    }

    /// The target is what the files seen so far give.
    pub open spec fn so_far(&self, heads: spec_fn(FileKey) -> Seq<u8>) -> bool {
        scan_of(self.files(), heads, self.instant(), self.seen()) == Ok::<u64, SyncError>(
            self.target(),
        )
    }

    /// Begins a scan of `files` for the instant `timestamp_ms`.
    pub fn new(files: Vec<FileKey>, timestamp_ms: i64) -> (s: TimestampScan)
        ensures
            s.wf(),
            s.files() == files@,
            s.instant() == timestamp_ms,
            s.seen() == 0,
            s.target() == 0,
            forall|heads: spec_fn(FileKey) -> Seq<u8>| #[trigger] s.so_far(heads),
    {
        TimestampScan { files, timestamp: timestamp_ms, next: 0, target: 0 }
    }

    /// The next file whose header is to be read, or `None` when the scan is over.
    pub fn pending(&mut self) -> (r: Option<FileKey>)
        requires
            old(self).wf(),
        ensures
            final(self).wf(),
            final(self).files() == old(self).files(),
            final(self).instant() == old(self).instant(),
            final(self).target() == old(self).target(),
            final(self).seen() == next_candidate(
                old(self).files(),
                old(self).seen(),
                old(self).target(),
            ),
            match r {
                Some(k) => final(self).seen() < final(self).files().len() && k
                    == final(self).files()[final(self).seen() as int] && k.2
                    > final(self).target(),
                None => final(self).seen() == final(self).files().len(),
            },
            forall|heads: spec_fn(FileKey) -> Seq<u8>|
                old(self).so_far(heads) ==> #[trigger] final(self).so_far(heads),
    {
        while self.next < self.files.len() && self.files[self.next].2 <= self.target
            invariant
                self.wf(),
                self.files() == old(self).files(),
                self.instant() == old(self).instant(),
                self.target() == old(self).target(),
                next_candidate(self.files(), self.seen(), self.target()) == next_candidate(
                    old(self).files(),
                    old(self).seen(),
                    old(self).target(),
                ),
                forall|heads: spec_fn(FileKey) -> Seq<u8>|
                    old(self).so_far(heads) ==> #[trigger] self.so_far(heads),
            decreases self.files@.len() - self.next,
        {
            let ghost before = *self;
            self.next = self.next + 1;
            proof {
                assert forall|heads: spec_fn(FileKey) -> Seq<u8>| old(self).so_far(
                    heads,
                ) implies #[trigger] self.so_far(heads) by {
                    assert(before.so_far(heads));
                }
            }
        }
        if self.next < self.files.len() {
            Some(self.files[self.next])
        } else {
            None
        }
    }

    /// Takes the start of the pending file, which holds its header.
    pub fn examine(&mut self, head: &[u8]) -> (r: Result<(), SyncError>)
        requires
            old(self).wf(),
            old(self).seen() < old(self).files().len(),
            old(self).files()[old(self).seen() as int].2 > old(self).target(),
        ensures
            final(self).wf(),
            final(self).files() == old(self).files(),
            final(self).instant() == old(self).instant(),
            match header_of(head@) {
                Err(e) => r == Err::<(), SyncError>(SyncError::Ltx(e)) && *final(self) == *old(
                    self,
                ),
                Ok(h) => {
                    &&& r == Ok::<(), SyncError>(())
                    &&& final(self).seen() == old(self).seen() + 1
                    &&& final(self).target() == if h.timestamp <= old(self).instant() {
                        old(self).files()[old(self).seen() as int].2
                    } else {
                        old(self).target()
                    }
                },
            },
            r is Ok ==> forall|heads: spec_fn(FileKey) -> Seq<u8>|
                old(self).so_far(heads) && heads(old(self).files()[old(self).seen() as int])
                    == head@ ==> #[trigger] final(self).so_far(heads),
    {
        let h = match Header::decode(head) {
            Ok(h) => h,
            Err(e) => return Err(SyncError::Ltx(e)),
        };
        let ghost before = *self;
        let key = self.files[self.next];
        if h.timestamp <= self.timestamp {
            self.target = key.2;
        }
        let n: usize = self.files.len();
        assert(self.next < n);
        self.next = self.next + 1;
        proof {
            assert forall|heads: spec_fn(FileKey) -> Seq<u8>|
                before.so_far(heads) && heads(before.files()[before.seen() as int])
                    == head@ implies #[trigger] self.so_far(heads) by {}
        }
        Ok(())
    }

    /// The TXID to restore to. No file at or before the instant is
    /// [`SyncError::TxidTooOld`].
    pub fn finish(&self) -> (r: Result<u64, SyncError>)
        requires
            self.wf(),
        ensures
            r == if self.target() == 0 {
                Err::<u64, SyncError>(SyncError::TxidTooOld { requested: 0 })
            } else {
                Ok::<u64, SyncError>(self.target())
            },
    {
        if self.target == 0 {
            return Err(SyncError::TxidTooOld { requested: 0 });
        }
        Ok(self.target)
    }
}

/// The target of an instant is the newest transaction at or before it: some file
/// at or before the instant ends there, and none ends later.
pub proof fn lemma_scan_finds_newest(
    files: Seq<FileKey>,
    heads: spec_fn(FileKey) -> Seq<u8>,
    timestamp: i64,
    n: nat,
)
    requires
        n <= files.len(),
    ensures
        scan_of(files, heads, timestamp, n) matches Ok(t) ==> {
            &&& t > 0 ==> exists|i: int|
                0 <= i < n && (#[trigger] files[i]).2 == t && (header_of(
                    heads(files[i]),
                ) matches Ok(h) && h.timestamp <= timestamp)
            &&& forall|i: int|
                0 <= i < n && (header_of(heads(#[trigger] files[i])) matches Ok(h) && h.timestamp
                    <= timestamp) ==> files[i].2 <= t
        },
    decreases n,
{
    if n > 0 {
        lemma_scan_finds_newest(files, heads, timestamp, (n - 1) as nat);
        if let Ok(t) = scan_of(files, heads, timestamp, n) {
            let before = scan_of(files, heads, timestamp, (n - 1) as nat)->Ok_0;
            if t > 0 {
                if t == before {
                    let i = choose|i: int|
                        0 <= i < n - 1 && (#[trigger] files[i]).2 == before && (header_of(
                            heads(files[i]),
                        ) matches Ok(h) && h.timestamp <= timestamp);
                    assert(files[i].2 == t);
                } else {
                    assert(files[n - 1].2 == t);
                }
            }
        }
    }
}

// --- The shape of a delta ---

/// The page size that the header of a database file states, in bytes 16 and 17,
/// where 1 stands for 65536.
pub open spec fn stated_page_size(b: Seq<u8>) -> Option<u32> {
    if b.len() < 18 {
        None
    } else if field(b, 16, 2) == 1 {
        Some(65536)
    } else {
        Some(field(b, 16, 2) as u32)
    }
}

/// The page size that an existing database file is using, from its first 18
/// bytes. `None` if it is too short to have a header.
pub fn local_page_size(b: &[u8]) -> (r: Option<u32>)
    ensures
        r == stated_page_size(b@),
{
    if b.len() < 18 {
        return None;
    }
    let n: u16 = be_u16(b, 16);
    if n == 1 {
        Some(65536)
    } else {
        Some(n as u32)
    }
}

/// The shape of a delta of the files with these headers, oldest first. A page
/// size that changes on the way is an error.
pub open spec fn shape_of(hs: Seq<Header>) -> Result<DeltaShape, SyncError>
    decreases hs.len(),
{
    if hs.len() == 0 {
        Ok(DeltaShape { page_size: 0, final_commit: 0, min_commit: u32::MAX })
    } else {
        match shape_of(hs.drop_last()) {
            Err(e) => Err(e),
            Ok(s) => shape_with(s, hs.last()),
        }
    }
}

/// The shape `s` extended by a file with the header `h`.
pub open spec fn shape_with(s: DeltaShape, h: Header) -> Result<DeltaShape, SyncError> {
    if s.page_size != 0 && h.page_size != s.page_size {
        Err(SyncError::Ltx(LtxError::InvalidPageSize(h.page_size)))
    } else {
        Ok(
            DeltaShape {
                page_size: h.page_size,
                final_commit: h.commit,
                min_commit: if h.commit < s.min_commit {
                    h.commit
                } else {
                    s.min_commit
                },
            },
        )
    }
}

impl DeltaShape {
    /// The shape of no files.
    pub fn empty() -> (s: DeltaShape)
        ensures
            shape_of(Seq::empty()) == Ok::<DeltaShape, SyncError>(s),
    {
        DeltaShape { page_size: 0, final_commit: 0, min_commit: u32::MAX }
    }

    /// The shape extended by the next file of the plan, of which `head` is the
    /// start. Reading all headers before anything on disk is touched is what lets
    /// a page-size change be refused in time.
    pub fn with(self, head: &[u8]) -> (r: Result<DeltaShape, SyncError>)
        ensures
            match header_of(head@) {
                Err(e) => r == Err::<DeltaShape, SyncError>(SyncError::Ltx(e)),
                Ok(h) => r == shape_with(self, h) && valid_page_size(h.page_size),
            },
    {
        let h = match Header::decode(head) {
            Ok(h) => h,
            Err(e) => return Err(SyncError::Ltx(e)),
        };
        if self.page_size != 0 && h.page_size != self.page_size {
            return Err(SyncError::Ltx(LtxError::InvalidPageSize(h.page_size)));
        }
        Ok(
            DeltaShape {
                page_size: h.page_size,
                final_commit: h.commit,
                min_commit: if h.commit < self.min_commit {
                    h.commit
                } else {
                    self.min_commit
                },
            },
        )
    }
}

/// The headers of the files of a plan.
pub open spec fn plan_headers(
    content: spec_fn(FileKey) -> Seq<u8>,
    plan: Seq<FileKey>,
) -> Seq<Header> {
    plan.map_values(|k: FileKey| header_of(content(k))->Ok_0)
}

/// The shape of a plan whose files record a history: the size at its end, and the
/// smallest size on the way.
pub proof fn lemma_shape_of_history(
    content: spec_fn(FileKey) -> Seq<u8>,
    h: History,
    page_size: u32,
    plan: Seq<FileKey>,
)
    requires
        page_size > 0,
        plan_records(content, h, page_size, plan),
    ensures
        shape_of(plan_headers(content, plan)) == Ok::<DeltaShape, SyncError>(
            DeltaShape {
                page_size: if plan.len() == 0 {
                    0
                } else {
                    page_size
                },
                final_commit: if plan.len() == 0 {
                    0
                } else {
                    h(plan.last().2).commit
                },
                min_commit: lowest_commit(h, plan, plan.len()),
            },
        ),
    decreases plan.len(),
{
    let hs = plan_headers(content, plan);
    if plan.len() > 0 {
        let front = plan.drop_last();
        assert(hs.drop_last() =~= plan_headers(content, front));
        assert(plan_records(content, h, page_size, front)) by {
            assert forall|k: int| 0 <= k < front.len() implies key_records(
                content,
                h,
                page_size,
                #[trigger] front[k],
            ) by {
                assert(front[k] == plan[k]);
            }
        }
        lemma_shape_of_history(content, h, page_size, front);
        assert(key_records(content, h, page_size, plan[plan.len() - 1]));
        lemma_lowest_of_prefix(h, plan, front.len());
    }
}

proof fn lemma_lowest_of_prefix(h: History, plan: Seq<FileKey>, n: nat)
    requires
        plan.len() > 0,
        n <= plan.len() - 1,
    ensures
        lowest_commit(h, plan.drop_last(), n) == lowest_commit(h, plan, n),
    decreases n,
{
    if n > 0 {
        lemma_lowest_of_prefix(h, plan, (n - 1) as nat);
    }
}

/// Whether a delta may be applied to a file that states the page size `local`.
/// Pages written at the offsets of another page size would give a file that looks
/// sound and is not.
pub fn accept_delta(local: Option<u32>, shape: DeltaShape) -> (r: Result<(), SyncError>)
    ensures
        r == match local {
            None => Err::<(), SyncError>(SyncError::Ltx(LtxError::InvalidPageSize(0))),
            Some(n) => if n != shape.page_size {
                Err::<(), SyncError>(SyncError::Ltx(LtxError::InvalidPageSize(shape.page_size)))
            } else {
                Ok::<(), SyncError>(())
            },
        },
{
    match local {
        None => Err(SyncError::Ltx(LtxError::InvalidPageSize(0))),
        Some(n) => {
            if n != shape.page_size {
                Err(SyncError::Ltx(LtxError::InvalidPageSize(shape.page_size)))
            } else {
                Ok(())
            }
        },
    }
}

// --- Catching up ---

/// Why the whole image is rebuilt instead of applying a delta. Each of these still
/// gives a correct image, just an expensive one.
#[derive(Clone, Copy, Debug, PartialEq, Eq)]
pub enum FallbackReason {
    /// No position marker beside the file (including: no file at all).
    NoMarker,
    /// A previous apply was interrupted, so the image is torn.
    DirtyMarker,
    /// The file is not the size the marker claims: something else touched it.
    LengthMismatch,
    /// No contiguous run of files bridges the local TXID to the newest.
    ChainGap,
    /// The delta is at a different page size, so every byte offset differs.
    PageSizeChanged,
    /// The marker is ahead of the replica: it was reset, rewound, or is another
    /// replica than the one this image came from.
    LocalAhead,
}

impl FallbackReason {
    /// The text of the reason.
    pub open spec fn text(self) -> Seq<char> {
        match self {
            FallbackReason::NoMarker => "no position marker"@,
            FallbackReason::DirtyMarker => "previous apply was interrupted"@,
            FallbackReason::LengthMismatch => "file length does not match the marker"@,
            FallbackReason::ChainGap => "no contiguous chain from the local txid"@,
            FallbackReason::PageSizeChanged => "page size changed"@,
            FallbackReason::LocalAhead => "local copy is ahead of the replica"@,
        }
    }

    /// The text of the reason, for people.
    pub fn message(&self) -> (s: &'static str)
        ensures
            s@ == self.text(),
    {
        match *self {
            FallbackReason::NoMarker => "no position marker",
            FallbackReason::DirtyMarker => "previous apply was interrupted",
            FallbackReason::LengthMismatch => "file length does not match the marker",
            FallbackReason::ChainGap => "no contiguous chain from the local txid",
            FallbackReason::PageSizeChanged => "page size changed",
            FallbackReason::LocalAhead => "local copy is ahead of the replica",
        }
    }
}

/// What catching up did.
#[derive(Clone, Copy, Debug, PartialEq, Eq)]
pub enum CatchUp {
    /// Already current; nothing was read or written.
    UpToDate { txid: u64 },
    /// Applied `files` delta files to reach `to`.
    Incremental { from: u64, to: u64, files: usize },
    /// The delta path was not usable; rebuilt the whole image instead.
    FullRestore { to: u64, reason: FallbackReason },
}

impl CatchUp {
    /// The text of the outcome.
    pub open spec fn text(self) -> Seq<char> {
        match self {
            CatchUp::UpToDate { txid } => "up to date at txid "@ + decimal(txid as nat),
            CatchUp::Incremental { from, to, files } => "applied "@ + decimal(files as nat)
                + " file(s), txid "@ + decimal(from as nat) + " -> "@ + decimal(to as nat),
            CatchUp::FullRestore { to, reason } => "full restore to txid "@ + decimal(to as nat)
                + " ("@ + reason.text() + ")"@,
        }
    }

    /// The text of the outcome, for people.
    pub fn message(&self) -> (s: String)
        ensures
            s@ == self.text(),
    {
        let mut s = String::new();
        match *self {
            CatchUp::UpToDate { txid } => {
                s.push_str("up to date at txid ");
                push_decimal(&mut s, txid);
            },
            CatchUp::Incremental { from, to, files } => {
                s.push_str("applied ");
                push_decimal(&mut s, files as u64);
                s.push_str(" file(s), txid ");
                push_decimal(&mut s, from);
                s.push_str(" -> ");
                push_decimal(&mut s, to);
            },
            CatchUp::FullRestore { to, reason } => {
                s.push_str("full restore to txid ");
                push_decimal(&mut s, to);
                s.push_str(" (");
                s.push_str(reason.message());
                s.push_str(")");
            },
        }
        assert(s@ =~= self.text());
        s
    }
}

/// How to catch up.
#[derive(Debug)]
pub enum CatchUpPlan {
    /// Rebuild the whole image.
    Full(FallbackReason),
    /// Nothing to do.
    UpToDate { txid: u64 },
    /// Apply these files to the image at `from`, if they have this page size.
    Delta { from: u64, page_size: u32, plan: Vec<FileKey> },
}

/// How to catch up.
#[verifier::ext_equal]
pub enum CatchUpView {
    Full(FallbackReason),
    UpToDate { txid: u64 },
    Delta { from: u64, page_size: u32, plan: Seq<FileKey> },
}

impl View for CatchUpPlan {
    type V = CatchUpView;

    open spec fn view(&self) -> CatchUpView {
        match *self {
            CatchUpPlan::Full(r) => CatchUpView::Full(r),
            CatchUpPlan::UpToDate { txid } => CatchUpView::UpToDate { txid },
            CatchUpPlan::Delta { from, page_size, plan } => CatchUpView::Delta {
                from,
                page_size,
                plan: plan@,
            },
        }
    }
}

/// How to catch up a file of `file_len` bytes with the marker `marker` beside it.
pub open spec fn catch_up_of(
    files: Seq<FileKey>,
    marker: Option<Marker>,
    file_len: Option<u64>,
) -> CatchUpView {
    match marker {
        None => CatchUpView::Full(FallbackReason::NoMarker),
        Some(Marker::Applying { .. }) => CatchUpView::Full(FallbackReason::DirtyMarker),
        Some(Marker::Clean { txid, page_size, commit, file_len: claimed }) => {
            if file_len != Some(claimed) {
                CatchUpView::Full(FallbackReason::LengthMismatch)
            } else if txid > head(files) {
                CatchUpView::Full(FallbackReason::LocalAhead)
            } else if txid == head(files) {
                CatchUpView::UpToDate { txid }
            } else {
                match delta_plan(files, txid) {
                    Err(_) => CatchUpView::Full(FallbackReason::ChainGap),
                    Ok(plan) => CatchUpView::Delta { from: txid, page_size, plan },
                }
            }
        },
    }
}

/// Decides how to make a database current: from the files of the replica, the
/// marker beside the database, if there is a usable one, and the length of its
/// file, if it exists.
pub fn plan_catch_up(files: &[FileKey], marker: Option<Marker>, file_len: Option<u64>) -> (p:
    CatchUpPlan)
    ensures
        p@ == catch_up_of(files@, marker, file_len),
        p matches CatchUpPlan::Delta { from, page_size, plan } ==> plan@.len() > 0,
{
    match marker {
        None => CatchUpPlan::Full(FallbackReason::NoMarker),
        Some(Marker::Applying { .. }) => CatchUpPlan::Full(FallbackReason::DirtyMarker),
        Some(Marker::Clean { txid, page_size, commit: _, file_len: claimed }) => {
            let same: bool = match file_len {
                Some(n) => n == claimed,
                None => false,
            };
            if !same {
                return CatchUpPlan::Full(FallbackReason::LengthMismatch);
            }
            let newest = head_txid(files);
            if txid > newest {
                return CatchUpPlan::Full(FallbackReason::LocalAhead);
            }
            if txid == newest {
                return CatchUpPlan::UpToDate { txid };
            }
            match plan_restore_from(files, txid) {
                Ok(plan) => CatchUpPlan::Delta { from: txid, page_size, plan },
                Err(_) => CatchUpPlan::Full(FallbackReason::ChainGap),
            }
        },
    }
}

/// Whether the delta has the page size that the marker and the file itself state.
pub fn same_page_size(page_size: u32, shape: DeltaShape, local: Option<u32>) -> (r: bool)
    ensures
        r == (shape.page_size == page_size && local == Some(page_size)),
{
    let agreed: bool = match local {
        Some(n) => n == page_size,
        None => false,
    };
    shape.page_size == page_size && agreed
}

/// How to catch up once the headers of a delta are known, and the page size that the
/// file states: another page size asks for the whole image.
pub open spec fn confirmed(v: CatchUpView, shape: DeltaShape, local: Option<u32>) -> CatchUpView {
    match v {
        CatchUpView::Delta { from, page_size, plan } => if shape.page_size == page_size && local
            == Some(page_size) {
            v
        } else {
            CatchUpView::Full(FallbackReason::PageSizeChanged)
        },
        _ => v,
    }
}

impl CatchUpPlan {
    /// Holds a delta against the page sizes of its files and of the local file, and
    /// falls back to a full restore where they differ from the marker's.
    pub fn confirm(self, shape: DeltaShape, local: Option<u32>) -> (p: CatchUpPlan)
        ensures
            p@ == confirmed(self@, shape, local),
    {
        match self {
            CatchUpPlan::Delta { from, page_size, plan } => {
                if same_page_size(page_size, shape, local) {
                    CatchUpPlan::Delta { from, page_size, plan }
                } else {
                    CatchUpPlan::Full(FallbackReason::PageSizeChanged)
                }
            },
            other => other,
        }
    }
}

/// A delta is only planned onto a file that a clean marker vouches for, and it
/// leads from the marker's TXID to the newest one without a gap.
pub proof fn lemma_delta_is_vouched_for(
    files: Seq<FileKey>,
    marker: Option<Marker>,
    file_len: Option<u64>,
)
    requires
        catch_up_of(files, marker, file_len) is Delta,
    ensures
        catch_up_of(files, marker, file_len) matches CatchUpView::Delta { from, page_size, plan }
            && {
            &&& marker matches Some(Marker::Clean { txid, page_size: ps, commit, file_len: claimed })
                && txid == from && ps == page_size && file_len == Some(claimed)
            &&& plan.len() > 0
            &&& chained(plan, from)
            &&& plan.last().2 == head(files)
        },
{
    let from = catch_up_of(files, marker, file_len)->Delta_from;
    let plan = catch_up_of(files, marker, file_len)->Delta_plan;
    lemma_cover_is_run(files, from);
    lemma_run_is_chained(files, plan, from);
    lemma_run_reach_bound(files, plan, from);
}

/// Catching up twice does nothing the second time: the marker that a run to the
/// newest TXID leaves behind is found up to date.
pub proof fn lemma_catch_up_settles(files: Seq<FileKey>, v: RunView)
    requires
        v.to == head(files),
    ensures
        catch_up_of(files, landed(v), Some(run_len(v))) == (CatchUpView::UpToDate { txid: v.to }),
{
}

// --- What a point-in-time restore gives ---

proof fn lemma_run_ascends(run: Seq<FileKey>, pos: u64, i: int, j: int)
    requires
        chained(run, pos),
        0 <= i <= j < run.len(),
    ensures
        run[i].2 <= run[j].2,
    decreases j - i,
{
    if i < j {
        lemma_run_ascends(run, pos, i, j - 1);
        assert(extends(run[j], end_before(run, pos, j)));
    }
}

/// A restore to a TXID gives the database as of the TXID it reports, which is not
/// past the target.
pub proof fn lemma_point_in_time_restore(
    content: spec_fn(FileKey) -> Seq<u8>,
    h: History,
    page_size: u32,
    files: Seq<FileKey>,
    target: u64,
)
    requires
        sound_history(h, page_size),
        plan_records(content, h, page_size, files),
        plan_to(files, target) is Ok,
        fits_in_memory(h, page_size, plan_to(files, target)->Ok_0.0),
    ensures
        ({
            let (plan, txid) = plan_to(files, target)->Ok_0;
            &&& txid <= target
            &&& applied_all(plan_contents(content, plan), plan.len()) is Ok
            &&& is_image(
                applied_all(plan_contents(content, plan), plan.len())->Ok_0,
                h(txid),
                page_size,
            )
        }),
{
    let (plan, txid) = plan_to(files, target)->Ok_0;
    let kept = up_to(files, target);
    lemma_plan_to_never_overshoots(files, target);
    assert(plan[plan.len() - 1].2 <= target);
    lemma_cover_is_run(kept, 0);
    lemma_run_is_chained(kept, plan, 0);
    lemma_up_to(files, target);
    assert forall|k: int| 0 <= k < kept.len() implies key_records(
        content,
        h,
        page_size,
        #[trigger] kept[k],
    ) by {
        assert(kept.contains(kept[k]));
        let i = choose|i: int| 0 <= i < files.len() && files[i] == kept[k];
        assert(key_records(content, h, page_size, files[i]));
    }
    lemma_plan_of_files(content, h, page_size, kept, plan, 0);
    lemma_full_restore_oldest_first(content, h, page_size, plan, plan.len());
}

/// A TXID that some run of the files still ends at is restored exactly.
pub proof fn lemma_exact_point_is_restored(files: Seq<FileKey>, target: u64, run: Seq<FileKey>)
    requires
        is_run(files, run, 0),
        run.len() > 0,
        run.last().2 == target,
        forall|f: FileKey| #[trigger] files.contains(f) ==> f.1 >= 1,
    ensures
        plan_to(files, target) is Ok,
        plan_to(files, target)->Ok_0.1 == target,
{
    lemma_run_is_chained(files, run, 0);
    assert forall|i: int| 0 <= i < run.len() implies (#[trigger] run[i]).2 <= target by {
        lemma_run_ascends(run, 0, i, run.len() - 1);
    }
    let kept = up_to(files, target);
    lemma_up_to(files, target);
    lemma_run_survives(files, target, run, 0);
    lemma_deletion_keeps_restorable(kept, kept, run, run);
    lemma_plan_to_reaches_furthest(files, target, run);
    lemma_plan_to_never_overshoots(files, target);
    let plan = plan_to(files, target)->Ok_0.0;
    assert(plan[plan.len() - 1].2 <= target);
}

} // verus!
