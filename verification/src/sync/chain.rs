//! Which chain of files a restore takes, as seen from its inputs and results.

use crate::ltx::error::LtxError;
use crate::ltx::format::{Header, header_of};
use crate::sync::apply::{DeltaShape, Marker};
use crate::sync::error::SyncError;
use crate::sync::history::{end_before, lemma_run_is_chained};
use crate::sync::plan::{
    FileKey, as_good, best_step, cover, delta_plan, extends, full_plan, greedy_cover, head,
    head_txid, is_run, lemma_best_step, lemma_cover_is_run, lemma_cover_is_shortest,
    lemma_cover_stays_ahead, lemma_head, lemma_plan_to_never_overshoots, lemma_run_members,
    lemma_run_reach_bound, lemma_run_survives, lemma_up_to, plan_restore, plan_restore_from,
    plan_restore_to, reach, up_to,
};
use crate::sync::reader::plan_window;
use crate::sync::restore::{
    CatchUp, CatchUpPlan, FallbackReason, TimestampScan, accept_delta, lemma_scan_finds_newest,
    local_page_size, next_candidate, plan_catch_up, plan_restore_to_txid, same_page_size,
};
use crate::text::{decimal, says, says_one};
use vstd::prelude::*;

verus! {

/// Where the first `k` files of a run that starts at `from` end.
pub open spec fn end_of(run: Seq<FileKey>, from: u64, k: int) -> u64 {
    if k <= 0 {
        from
    } else {
        run[k - 1].2
    }
}

/// The files of `run` are among `files`, and each starts no later than just after the
/// end of those before it, the first after `from`, and ends later.
pub open spec fn contiguous(files: Seq<FileKey>, run: Seq<FileKey>, from: u64) -> bool {
    forall|k: int|
        0 <= k < run.len() ==> {
            &&& files.contains(#[trigger] run[k])
            &&& run[k].1 <= end_of(run, from, k) + 1
            &&& run[k].2 > end_of(run, from, k)
        }
}

/// `top` is the highest TXID of any file, or 0.
pub open spec fn is_top(files: Seq<FileKey>, top: u64) -> bool {
    &&& forall|i: int| 0 <= i < files.len() ==> (#[trigger] files[i]).2 <= top
    &&& top > 0 ==> exists|i: int| 0 <= i < files.len() && (#[trigger] files[i]).2 == top
}

proof fn lemma_contiguous(files: Seq<FileKey>, run: Seq<FileKey>, from: u64)
    ensures
        contiguous(files, run, from) <==> is_run(files, run, from),
    decreases run.len(),
{
    if run.len() > 0 {
        let rest = run.drop_first();
        let g = run.first();
        lemma_contiguous(files, rest, g.2);
        if contiguous(files, run, from) {
            assert(run[0] == g);
            assert(files.contains(run[0]));
            assert forall|k: int| 0 <= k < rest.len() implies {
                &&& files.contains(#[trigger] rest[k])
                &&& rest[k].1 <= end_of(rest, g.2, k) + 1
                &&& rest[k].2 > end_of(rest, g.2, k)
            } by {
                assert(rest[k] == run[k + 1]);
                if k > 0 {
                    assert(rest[k - 1] == run[k]);
                }
            }
        }
        if is_run(files, run, from) {
            lemma_run_is_chained(files, run, from);
            assert forall|k: int| 0 <= k < run.len() implies {
                &&& files.contains(#[trigger] run[k])
                &&& run[k].1 <= end_of(run, from, k) + 1
                &&& run[k].2 > end_of(run, from, k)
            } by {
                lemma_run_members(files, run, from, k);
                assert(extends(run[k], end_before(run, from, k)));
            }
        }
    }
}

proof fn lemma_top(files: Seq<FileKey>, top: u64)
    requires
        is_top(files, top),
    ensures
        head(files) == top,
{
    lemma_head(files);
    if top > 0 {
        let i = choose|i: int| 0 <= i < files.len() && (#[trigger] files[i]).2 == top;
        assert(files[i].2 <= head(files));
    }
    if head(files) > 0 {
        let i = choose|i: int| 0 <= i < files.len() && (#[trigger] files[i]).2 == head(files);
        assert(files[i].2 <= top);
    }
}

/// The head of a replica is the highest TXID of any file.
pub proof fn lemma_head_is_the_top(files: &[FileKey], h: u64)
    requires
        call_ensures(head_txid, (files,), h),
    ensures
        is_top(files@, h),
{
    lemma_head(files@);
}

/// From where a cover stands, the next file is the one that reaches furthest, and of
/// those that reach as far one of the highest level.
pub proof fn lemma_furthest_then_coarsest(files: Seq<FileKey>, pos: u64, i: int)
    requires
        0 <= i < files.len(),
        files[i].1 <= pos + 1,
        files[i].2 > pos,
    ensures
        cover(files, pos).len() > 0,
        files.contains(cover(files, pos)[0]),
        cover(files, pos)[0].1 <= pos + 1,
        cover(files, pos)[0].2 >= files[i].2,
        cover(files, pos)[0].2 == files[i].2 ==> cover(files, pos)[0].0 >= files[i].0,
{
    lemma_best_step(files, pos, files.len());
    assert(extends(files[i], pos));
    let b = best_step(files, pos, files.len())->0;
    assert(cover(files, pos) == seq![b] + cover(files, b.2));
}

/// Of the files that reach furthest at the highest level, the last listed is taken.
pub proof fn lemma_last_of_equals(files: Seq<FileKey>, pos: u64)
    requires
        cover(files, pos).len() > 0,
    ensures
        exists|k: int|
            0 <= k < files.len() && #[trigger] files[k] == cover(files, pos)[0] && forall|j: int|
                k < j < files.len() && (#[trigger] files[j]).1 <= pos + 1 && files[j].2 > pos
                    ==> files[j].2 < files[k].2 || (files[j].2 == files[k].2 && files[j].0
                    < files[k].0),
{
    lemma_best_step(files, pos, files.len());
    lemma_last_best(files, pos, files.len());
    let b = best_step(files, pos, files.len())->0;
    assert(cover(files, pos) == seq![b] + cover(files, b.2));
}

proof fn lemma_last_best(files: Seq<FileKey>, pos: u64, n: nat)
    requires
        n <= files.len(),
    ensures
        best_step(files, pos, n) matches Some(b) ==> exists|k: int|
            0 <= k < n && #[trigger] files[k] == b && forall|j: int|
                k < j < n && (#[trigger] files[j]).1 <= pos + 1 && files[j].2 > pos ==> files[j].2
                    < b.2 || (files[j].2 == b.2 && files[j].0 < b.0),
    decreases n,
{
    if n > 0 {
        lemma_last_best(files, pos, (n - 1) as nat);
        if let Some(b) = best_step(files, pos, n) {
            let before = best_step(files, pos, (n - 1) as nat);
            if before == Some(b) && !(extends(files[n - 1], pos) && as_good(files[n - 1], b)) {
                let k = choose|k: int|
                    0 <= k < n - 1 && #[trigger] files[k] == b && forall|j: int|
                        k < j < n - 1 && (#[trigger] files[j]).1 <= pos + 1 && files[j].2 > pos
                            ==> files[j].2 < b.2 || (files[j].2 == b.2 && files[j].0 < b.0);
                assert forall|j: int|
                    k < j < n && (#[trigger] files[j]).1 <= pos + 1 && files[j].2 > pos
                    implies files[j].2 < b.2 || (files[j].2 == b.2 && files[j].0 < b.0) by {}
                assert(files[k] == b);
            } else {
                assert(files[n - 1] == b);
            }
        }
    }
}

/// A greedy cover is a contiguous run that nothing continues, and no contiguous run from
/// the same point reaches further, or as far with fewer files.
pub proof fn lemma_greedy_cover_is_best(
    files: &[FileKey],
    from: u64,
    r: (Vec<FileKey>, u64),
    run: Seq<FileKey>,
)
    requires
        call_ensures(greedy_cover, (files, from), r),
        contiguous(files@, run, from),
    ensures
        contiguous(files@, r.0@, from),
        r.1 == end_of(r.0@, from, r.0@.len() as int),
        end_of(run, from, run.len() as int) <= r.1,
        end_of(run, from, run.len() as int) == r.1 ==> r.0@.len() <= run.len(),
        forall|i: int|
            0 <= i < files@.len() ==> !((#[trigger] files@[i]).1 <= r.1 + 1 && files@[i].2 > r.1),
{
    lemma_cover_is_run(files@, from);
    lemma_contiguous(files@, r.0@, from);
    lemma_contiguous(files@, run, from);
    lemma_cover_stays_ahead(files@, run, from, from);
    if reach(run, from) >= reach(cover(files@, from), from) {
        lemma_cover_is_shortest(files@, run, from);
    }
    assert forall|i: int| 0 <= i < files@.len() implies !((#[trigger] files@[i]).1 <= r.1 + 1
        && files@[i].2 > r.1) by {
        assert(!extends(files@[i], r.1));
    }
}

/// A full restore takes a contiguous run from TXID 1 that reaches as far as any, with the
/// fewest files; it is refused only where no file starts there.
pub proof fn lemma_full_restore_reaches_furthest(
    files: &[FileKey],
    r: Result<Vec<FileKey>, SyncError>,
    run: Seq<FileKey>,
)
    requires
        call_ensures(plan_restore, (files,), r),
        contiguous(files@, run, 0),
        forall|i: int| 0 <= i < files@.len() ==> (#[trigger] files@[i]).1 >= 1,
    ensures
        match r {
            Ok(p) => {
                &&& p@.len() > 0
                &&& p@[0].1 == 1
                &&& contiguous(files@, p@, 0)
                &&& end_of(run, 0, run.len() as int) <= p@[p@.len() - 1].2
                &&& end_of(run, 0, run.len() as int) == p@[p@.len() - 1].2 ==> p@.len() <= run.len()
            },
            Err(e) => {
                &&& e == SyncError::NoSnapshot
                &&& forall|i: int|
                    0 <= i < files@.len() ==> !((#[trigger] files@[i]).1 == 1 && files@[i].2 >= 1)
            },
        },
{
    let plan = cover(files@, 0);
    lemma_cover_is_run(files@, 0);
    lemma_contiguous(files@, plan, 0);
    lemma_contiguous(files@, run, 0);
    lemma_cover_stays_ahead(files@, run, 0, 0);
    if reach(run, 0) >= reach(plan, 0) {
        lemma_cover_is_shortest(files@, run, 0);
    }
    if plan.len() > 0 {
        assert(files@.contains(plan[0]));
        let i = choose|i: int| 0 <= i < files@.len() && files@[i] == plan[0];
        assert(files@[i].1 >= 1);
        assert(plan[0].1 <= end_of(plan, 0, 0) + 1);
    }
    if r is Err {
        assert forall|i: int| 0 <= i < files@.len() implies !((#[trigger] files@[i]).1 == 1
            && files@[i].2 >= 1) by {
            if files@[i].1 == 1 && files@[i].2 >= 1 {
                lemma_furthest_then_coarsest(files@, 0, i);
            }
        }
    }
}

/// A delta leads from where the image is to the newest TXID with the fewest files. It is
/// empty exactly where the image is there already, and refused as a gap exactly where no
/// contiguous run leads there.
pub proof fn lemma_delta_leads_to_the_top(
    files: &[FileKey],
    from: u64,
    r: Result<Vec<FileKey>, SyncError>,
    top: u64,
    run: Seq<FileKey>,
)
    requires
        call_ensures(plan_restore_from, (files, from), r),
        is_top(files@, top),
        contiguous(files@, run, from),
    ensures
        match r {
            Ok(p) => {
                &&& p@.len() == 0 <==> from >= top
                &&& contiguous(files@, p@, from)
                &&& from < top ==> p@[p@.len() - 1].2 == top
                &&& from < top && end_of(run, from, run.len() as int) == top ==> p@.len()
                    <= run.len()
            },
            Err(e) => {
                &&& e == (SyncError::ChainGap { from })
                &&& from < top
                &&& end_of(run, from, run.len() as int) < top
            },
        },
{
    lemma_top(files@, top);
    lemma_delta(files@, from, run);
}

proof fn lemma_delta(files: Seq<FileKey>, from: u64, run: Seq<FileKey>)
    requires
        contiguous(files, run, from),
    ensures
        ({
            let top = head(files);
            match delta_plan(files, from) {
                Ok(p) => {
                    &&& p.len() == 0 <==> from >= top
                    &&& contiguous(files, p, from)
                    &&& from < top ==> p[p.len() - 1].2 == top
                    &&& from < top && end_of(run, from, run.len() as int) == top ==> p.len()
                        <= run.len()
                },
                Err(e) => {
                    &&& e == (SyncError::ChainGap { from })
                    &&& from < top
                    &&& end_of(run, from, run.len() as int) < top
                },
            }
        }),
{
    let plan = cover(files, from);
    lemma_cover_is_run(files, from);
    lemma_contiguous(files, plan, from);
    lemma_contiguous(files, run, from);
    lemma_cover_stays_ahead(files, run, from, from);
    if from < head(files) {
        lemma_run_reach_bound(files, plan, from);
        lemma_run_reach_bound(files, run, from);
    }
    if reach(run, from) >= reach(plan, from) {
        lemma_cover_is_shortest(files, run, from);
    }
}

proof fn lemma_point_plan(files: Seq<FileKey>, target: u64, run: Seq<FileKey>)
    requires
        contiguous(files, run, 0),
        forall|k: int| 0 <= k < run.len() ==> (#[trigger] run[k]).2 <= target,
        forall|i: int| 0 <= i < files.len() ==> (#[trigger] files[i]).1 >= 1,
    ensures
        match full_plan(up_to(files, target)) {
            Ok(p) => {
                &&& p.len() > 0
                &&& p[0].1 == 1
                &&& contiguous(files, p, 0)
                &&& forall|k: int| 0 <= k < p.len() ==> (#[trigger] p[k]).2 <= target
                &&& end_of(run, 0, run.len() as int) <= p[p.len() - 1].2
            },
            Err(_) => forall|i: int|
                0 <= i < files.len() ==> !((#[trigger] files[i]).1 == 1 && 1 <= files[i].2 <= target),
        },
{
    let kept = up_to(files, target);
    lemma_up_to(files, target);
    lemma_contiguous(files, run, 0);
    lemma_run_survives(files, target, run, 0);
    lemma_cover_stays_ahead(kept, run, 0, 0);
    lemma_cover_is_run(kept, 0);
    lemma_plan_to_never_overshoots(files, target);
    let p = cover(kept, 0);
    lemma_contiguous(kept, p, 0);
    assert forall|k: int| 0 <= k < p.len() implies files.contains(#[trigger] p[k]) && p[k].1 >= 1 by {
        assert(kept.contains(p[k]));
        let i = choose|i: int| 0 <= i < files.len() && files[i] == p[k];
        assert(files[i].1 >= 1);
    }
    if p.len() > 0 {
        assert(p[0].1 <= end_of(p, 0, 0) + 1);
    }
    if full_plan(kept) is Err {
        assert forall|i: int| 0 <= i < files.len() implies !((#[trigger] files[i]).1 == 1 && 1
            <= files[i].2 <= target) by {
            if files[i].1 == 1 && 1 <= files[i].2 <= target {
                assert(files.contains(files[i]));
                assert(kept.contains(files[i]));
                let k = choose|k: int| 0 <= k < kept.len() && kept[k] == files[i];
                lemma_furthest_then_coarsest(kept, 0, k);
            }
        }
    }
}

/// A restore to a TXID takes a contiguous run from TXID 1 that does not pass it and comes
/// as close as any, and reports where it ends; a target before every such run is too old.
pub proof fn lemma_restore_to_txid_comes_closest(
    files: &[FileKey],
    target: u64,
    r: Result<(Vec<FileKey>, u64), SyncError>,
    run: Seq<FileKey>,
)
    requires
        call_ensures(plan_restore_to_txid, (files, target), r),
        contiguous(files@, run, 0),
        forall|k: int| 0 <= k < run.len() ==> (#[trigger] run[k]).2 <= target,
        forall|i: int| 0 <= i < files@.len() ==> (#[trigger] files@[i]).1 >= 1,
    ensures
        match r {
            Ok((p, txid)) => {
                &&& p@.len() > 0
                &&& p@[0].1 == 1
                &&& contiguous(files@, p@, 0)
                &&& txid == p@[p@.len() - 1].2
                &&& txid <= target
                &&& end_of(run, 0, run.len() as int) <= txid
            },
            Err(e) => {
                &&& e == (SyncError::TxidTooOld { requested: target })
                &&& run.len() == 0
                &&& forall|i: int|
                    0 <= i < files@.len() ==> !((#[trigger] files@[i]).1 == 1 && 1 <= files@[i].2
                        <= target)
            },
        },
{
    lemma_point_plan(files@, target, run);
    if r is Err && run.len() > 0 {
        assert(files@.contains(run[0]));
        let i = choose|i: int| 0 <= i < files@.len() && files@[i] == run[0];
        assert(files@[i].1 <= end_of(run, 0, 0) + 1);
    }
}

/// The same, of the plan alone.
pub proof fn lemma_restore_to_comes_closest(
    files: &[FileKey],
    target: u64,
    r: Result<Vec<FileKey>, SyncError>,
    run: Seq<FileKey>,
)
    requires
        call_ensures(plan_restore_to, (files, target), r),
        contiguous(files@, run, 0),
        forall|k: int| 0 <= k < run.len() ==> (#[trigger] run[k]).2 <= target,
        forall|i: int| 0 <= i < files@.len() ==> (#[trigger] files@[i]).1 >= 1,
    ensures
        match r {
            Ok(p) => {
                &&& p@.len() > 0
                &&& p@[0].1 == 1
                &&& contiguous(files@, p@, 0)
                &&& forall|k: int| 0 <= k < p@.len() ==> (#[trigger] p@[k]).2 <= target
                &&& end_of(run, 0, run.len() as int) <= p@[p@.len() - 1].2
            },
            Err(e) => {
                &&& e == SyncError::NoSnapshot
                &&& forall|i: int|
                    0 <= i < files@.len() ==> !((#[trigger] files@[i]).1 == 1 && 1 <= files@[i].2
                        <= target)
            },
        },
{
    lemma_point_plan(files@, target, run);
}

/// A reader's window is the chain that a restore takes: up to the newest TXID, or up to
/// the one it is asked for.
pub proof fn lemma_window_is_the_restore_chain(
    files: &[FileKey],
    at_txid: Option<u64>,
    r: Result<Vec<FileKey>, SyncError>,
    run: Seq<FileKey>,
)
    requires
        call_ensures(plan_window, (files, at_txid), r),
        contiguous(files@, run, 0),
        at_txid matches Some(t) ==> forall|k: int|
            0 <= k < run.len() ==> (#[trigger] run[k]).2 <= t,
        forall|i: int| 0 <= i < files@.len() ==> (#[trigger] files@[i]).1 >= 1,
    ensures
        r matches Ok(p) ==> {
            &&& p@.len() > 0
            &&& p@[0].1 == 1
            &&& contiguous(files@, p@, 0)
            &&& end_of(run, 0, run.len() as int) <= p@[p@.len() - 1].2
            &&& at_txid matches Some(t) ==> forall|k: int|
                0 <= k < p@.len() ==> (#[trigger] p@[k]).2 <= t
        },
        run.len() > 0 ==> r is Ok,
{
    match at_txid {
        Some(t) => {
            lemma_point_plan(files@, t, run);
        },
        None => {
            let plan = cover(files@, 0);
            lemma_cover_is_run(files@, 0);
            lemma_contiguous(files@, plan, 0);
            lemma_contiguous(files@, run, 0);
            lemma_cover_stays_ahead(files@, run, 0, 0);
            if plan.len() > 0 {
                assert(files@.contains(plan[0]));
                let i = choose|i: int| 0 <= i < files@.len() && files@[i] == plan[0];
                assert(files@[i].1 >= 1);
                assert(plan[0].1 <= end_of(plan, 0, 0) + 1);
            }
        },
    }
    if run.len() > 0 {
        assert(files@.contains(run[0]));
        let i = choose|i: int| 0 <= i < files@.len() && files@[i] == run[0];
        assert(files@[i].1 <= end_of(run, 0, 0) + 1);
        if at_txid is None {
            lemma_furthest_then_coarsest(files@, 0, i);
        }
    }
}

/// How a copy is caught up: it is left alone exactly where a clean marker that vouches for
/// the file states the newest TXID; a delta leads from an older TXID to the newest
/// wherever some contiguous run does; everything else is a full restore, for its reason.
pub proof fn lemma_catch_up_leads_to_the_top(
    files: &[FileKey],
    marker: Option<Marker>,
    file_len: Option<u64>,
    p: CatchUpPlan,
    top: u64,
    run: Seq<FileKey>,
)
    requires
        call_ensures(plan_catch_up, (files, marker, file_len), p),
        is_top(files@, top),
        marker matches Some(Marker::Clean { txid, page_size, commit, file_len: n }) ==> contiguous(
            files@,
            run,
            txid,
        ),
    ensures
        match marker {
            None => p matches CatchUpPlan::Full(FallbackReason::NoMarker),
            Some(Marker::Applying { from, to }) => p matches CatchUpPlan::Full(
                FallbackReason::DirtyMarker,
            ),
            Some(Marker::Clean { txid, page_size, commit, file_len: n }) => {
                &&& file_len != Some(n) ==> (p matches CatchUpPlan::Full(
                    FallbackReason::LengthMismatch,
                ))
                &&& file_len == Some(n) && txid > top ==> (p matches CatchUpPlan::Full(
                    FallbackReason::LocalAhead,
                ))
                &&& file_len == Some(n) && txid == top ==> (p matches CatchUpPlan::UpToDate {
                    txid: t,
                } && t == txid)
                &&& file_len == Some(n) && txid < top ==> match p {
                    CatchUpPlan::Delta { from, page_size: ps, plan } => {
                        &&& from == txid
                        &&& ps == page_size
                        &&& plan@.len() > 0
                        &&& contiguous(files@, plan@, txid)
                        &&& plan@[plan@.len() - 1].2 == top
                        &&& end_of(run, txid, run.len() as int) == top ==> plan@.len() <= run.len()
                    },
                    CatchUpPlan::Full(FallbackReason::ChainGap) => end_of(
                        run,
                        txid,
                        run.len() as int,
                    ) < top,
                    _ => false,
                }
            },
        },
{
    lemma_top(files@, top);
    if let Some(Marker::Clean { txid, page_size, commit, file_len: n }) = marker {
        lemma_delta(files@, txid, run);
    }
}

/// A delta goes ahead exactly where its files and the local file have the page size that
/// the marker states; otherwise the image is rebuilt. What is no delta stays as it is.
pub proof fn lemma_page_sizes_are_confirmed(
    plan: CatchUpPlan,
    shape: DeltaShape,
    local: Option<u32>,
    p: CatchUpPlan,
)
    requires
        call_ensures(CatchUpPlan::confirm, (plan, shape, local), p),
    ensures
        match plan {
            CatchUpPlan::Delta { from, page_size, plan: files } => {
                if shape.page_size == page_size && local == Some(page_size) {
                    p matches CatchUpPlan::Delta { from: f, page_size: s, plan: q } && f == from
                        && s == page_size && q@ == files@
                } else {
                    p matches CatchUpPlan::Full(FallbackReason::PageSizeChanged)
                }
            },
            CatchUpPlan::Full(reason) => p matches CatchUpPlan::Full(r) && r == reason,
            CatchUpPlan::UpToDate { txid } => p matches CatchUpPlan::UpToDate { txid: t } && t
                == txid,
        },
{
}

/// Page sizes are the same where all three are.
pub proof fn lemma_same_page_size(page_size: u32, shape: DeltaShape, local: Option<u32>, r: bool)
    requires
        call_ensures(same_page_size, (page_size, shape, local), r),
    ensures
        r <==> local is Some && local->0 == page_size && shape.page_size == page_size,
{
}

/// A delta is accepted exactly where the local file states the page size of its files.
pub proof fn lemma_delta_needs_the_page_size(
    local: Option<u32>,
    shape: DeltaShape,
    r: Result<(), SyncError>,
)
    requires
        call_ensures(accept_delta, (local, shape), r),
    ensures
        r is Ok <==> local == Some(shape.page_size),
        r matches Err(e) ==> e is Ltx,
{
}

/// The shape of a delta with one more file: the sizes of that file at its end, the lowest
/// size on the way, and one page size throughout.
pub proof fn lemma_shape_takes_in_a_file(
    s: DeltaShape,
    head: &[u8],
    r: Result<DeltaShape, SyncError>,
)
    requires
        call_ensures(DeltaShape::with, (s, head), r),
    ensures
        match header_of(head@) {
            Err(e) => r == Err::<DeltaShape, SyncError>(SyncError::Ltx(e)),
            Ok(h) => if s.page_size == 0 || s.page_size == h.page_size {
                r matches Ok(t) && {
                    &&& t.page_size == h.page_size
                    &&& t.final_commit == h.commit
                    &&& t.min_commit <= s.min_commit && t.min_commit <= h.commit
                    &&& t.min_commit == s.min_commit || t.min_commit == h.commit
                }
            } else {
                r == Err::<DeltaShape, SyncError>(
                    SyncError::Ltx(LtxError::InvalidPageSize(h.page_size)),
                )
            },
        },
{
}

/// A database file states its page size in bytes 16 and 17, where 1 stands for 65536.
pub proof fn lemma_file_states_its_page_size(b: &[u8], r: Option<u32>)
    requires
        call_ensures(local_page_size, (b,), r),
    ensures
        r is None <==> b@.len() < 18,
        b@.len() >= 18 && b@[16] == 0 && b@[17] == 1 ==> r == Some(65536u32),
        b@.len() >= 18 && !(b@[16] == 0 && b@[17] == 1) ==> (r matches Some(n) && n == b@[16] * 256
            + b@[17]),
{
    if b@.len() >= 18 {
        let w = b@.subrange(16, 18);
        reveal_with_fuel(crate::wire::be_value, 3);
        assert(w.drop_last() =~= seq![b@[16]]);
        assert(w.drop_last().drop_last() =~= Seq::<u8>::empty());
    }
}

/// The shape of one file is what its header says.
pub proof fn lemma_shape_of_one_file(
    none: DeltaShape,
    head: &[u8],
    header: Result<Header, LtxError>,
    r: Result<DeltaShape, SyncError>,
)
    requires
        call_ensures(DeltaShape::empty, (), none),
        call_ensures(Header::decode, (head,), header),
        call_ensures(DeltaShape::with, (none, head), r),
    ensures
        match header {
            Err(e) => r == Err::<DeltaShape, SyncError>(SyncError::Ltx(e)),
            Ok(h) => r matches Ok(s) && (s.page_size == h.page_size && s.final_commit == h.commit
                && s.min_commit == h.commit),
        },
{
}

/// The file bears a timestamp that is not after the instant.
pub open spec fn not_after(heads: spec_fn(FileKey) -> Seq<u8>, k: FileKey, instant: i64) -> bool {
    header_of(heads(k)) matches Ok(h) && h.timestamp <= instant
}

/// A scan for an instant that is over gives the highest TXID that a file not after the
/// instant ends at, and fails only where there is none.
pub proof fn lemma_scan_gives_the_latest(
    scan: TimestampScan,
    heads: spec_fn(FileKey) -> Seq<u8>,
    r: Result<u64, SyncError>,
)
    requires
        scan.wf(),
        scan.so_far(heads),
        scan.seen() == scan.files().len(),
        call_ensures(TimestampScan::finish, (&scan,), r),
    ensures
        r matches Ok(t) ==> {
            &&& exists|i: int|
                0 <= i < scan.files().len() && (#[trigger] scan.files()[i]).2 == t && not_after(
                    heads,
                    scan.files()[i],
                    scan.instant(),
                )
            &&& forall|i: int|
                0 <= i < scan.files().len() && not_after(
                    heads,
                    #[trigger] scan.files()[i],
                    scan.instant(),
                ) ==> scan.files()[i].2 <= t
        },
        r matches Err(e) ==> {
            &&& e == (SyncError::TxidTooOld { requested: 0 })
            &&& forall|i: int|
                0 <= i < scan.files().len() && not_after(
                    heads,
                    #[trigger] scan.files()[i],
                    scan.instant(),
                ) ==> scan.files()[i].2 == 0
        },
{
    lemma_scan_finds_newest(scan.files(), heads, scan.instant(), scan.files().len());
    if let Ok(t) = r {
        let i = choose|i: int|
            0 <= i < scan.files().len() && (#[trigger] scan.files()[i]).2 == t && (header_of(
                heads(scan.files()[i]),
            ) matches Ok(h) && h.timestamp <= scan.instant());
        assert(not_after(heads, scan.files()[i], scan.instant()));
    }
}

/// A scan asks for the header of the next file that ends after what it has found, and looks
/// at no file that does not.
pub proof fn lemma_scan_passes_over(scan: &mut TimestampScan, r: Option<FileKey>)
    requires
        old(scan).wf(),
        call_ensures(TimestampScan::pending, (scan,), r),
    ensures
        final(scan).files() == old(scan).files(),
        final(scan).target() == old(scan).target(),
        old(scan).seen() <= final(scan).seen() <= old(scan).files().len(),
        forall|i: int|
            old(scan).seen() <= i < final(scan).seen() ==> (#[trigger] old(scan).files()[i]).2
                <= old(scan).target(),
        r is None <==> final(scan).seen() == old(scan).files().len(),
        r matches Some(k) ==> k == old(scan).files()[final(scan).seen() as int] && k.2 > old(
            scan,
        ).target(),
{
    lemma_candidate(old(scan).files(), old(scan).seen(), old(scan).target());
}

proof fn lemma_candidate(files: Seq<FileKey>, i: nat, target: u64)
    requires
        i <= files.len(),
    ensures
        i <= next_candidate(files, i, target) <= files.len(),
        forall|k: int|
            i <= k < next_candidate(files, i, target) ==> (#[trigger] files[k]).2 <= target,
    decreases files.len() - i,
{
    if i < files.len() && files[i as int].2 <= target {
        lemma_candidate(files, i + 1, target);
    }
}

/// A file that is not after the instant raises what was found to its end; any other leaves
/// it.
pub proof fn lemma_scan_takes_in_a_file(
    scan: &mut TimestampScan,
    head: &[u8],
    header: Result<Header, LtxError>,
    r: Result<(), SyncError>,
)
    requires
        old(scan).wf(),
        old(scan).seen() < old(scan).files().len(),
        call_ensures(Header::decode, (head,), header),
        call_ensures(TimestampScan::examine, (scan, head), r),
    ensures
        header matches Err(e) ==> r == Err::<(), SyncError>(SyncError::Ltx(e)) && *final(scan)
            == *old(scan),
        header matches Ok(h) ==> {
            &&& r is Ok
            &&& final(scan).seen() == old(scan).seen() + 1
            &&& h.timestamp <= old(scan).instant() ==> final(scan).target() == old(
                scan,
            ).files()[old(scan).seen() as int].2
            &&& h.timestamp > old(scan).instant() ==> final(scan).target() == old(scan).target()
        },
{
}

/// What is said of a catch-up says its TXIDs, how many files were applied, and why the whole
/// image was rebuilt.
pub proof fn lemma_catch_up_is_told(
    n: u64,
    m: u64,
    files: usize,
    reason: FallbackReason,
    why: &'static str,
    s: (String, String, String),
)
    requires
        call_ensures(FallbackReason::message, (&reason,), why),
        call_ensures(CatchUp::message, (&CatchUp::UpToDate { txid: n },), s.0),
        call_ensures(CatchUp::message, (&CatchUp::Incremental { from: n, to: m, files },), s.1),
        call_ensures(CatchUp::message, (&CatchUp::FullRestore { to: m, reason },), s.2),
    ensures
        exists|a: Seq<char>, b: Seq<char>| #[trigger] says_one(s.0@, a, n as nat, b),
        exists|a: Seq<char>, b: Seq<char>|
            #[trigger] says(s.1@, a, files as nat, b, n as nat, " -> "@ + decimal(m as nat)),
        exists|a: Seq<char>|
            #[trigger] says_one(s.2@, a, m as nat, " ("@ + why@ + ")"@),
{
    let none = Seq::<char>::empty();
    assert(says_one(s.0@, "up to date at txid "@, n as nat, none));
    let files = files as nat;
    let end = " -> "@ + decimal(m as nat);
    assert(s.1@ =~= "applied "@ + decimal(files) + " file(s), txid "@ + decimal(n as nat) + end);
    assert(says(s.1@, "applied "@, files, " file(s), txid "@, n as nat, end));
    let b = " ("@ + why@ + ")"@;
    assert(s.2@ =~= "full restore to txid "@ + decimal(m as nat) + b);
    assert(says_one(s.2@, "full restore to txid "@, m as nat, b));
}

} // verus!
