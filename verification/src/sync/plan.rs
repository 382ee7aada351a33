//! Which files of a replica to read: covers of a TXID range by as few files as
//! possible.

use crate::sync::error::SyncError;
use vstd::prelude::*;

verus! {

/// A stored LTX file: `(level, min_txid, max_txid)`.
pub type FileKey = (u32, u64, u64);

/// The file `f` begins no later than just after `pos`, and reaches past it.
pub open spec fn extends(f: FileKey, pos: u64) -> bool {
    f.1 <= pos + 1 && f.2 > pos
}

/// The file `a` is at least as good a next step as `b`: it reaches further, or
/// as far at an equal or higher level.
pub open spec fn as_good(a: FileKey, b: FileKey) -> bool {
    a.2 > b.2 || (a.2 == b.2 && a.0 >= b.0)
}

/// Of the first `n` files, the best one that extends `pos`; the last of them
/// where several are equally good.
pub open spec fn best_step(files: Seq<FileKey>, pos: u64, n: nat) -> Option<FileKey>
    decreases n,
{
    if n == 0 {
        None
    } else {
        let f = files[n - 1];
        match best_step(files, pos, (n - 1) as nat) {
            None => if extends(f, pos) {
                Some(f)
            } else {
                None
            },
            Some(b) => if extends(f, pos) && as_good(f, b) {
                Some(f)
            } else {
                Some(b)
            },
        }
    }
}

pub proof fn lemma_best_step(files: Seq<FileKey>, pos: u64, n: nat)
    requires
        n <= files.len(),
    ensures
        match best_step(files, pos, n) {
            None => forall|i: int| 0 <= i < n ==> !extends(#[trigger] files[i], pos),
            Some(b) => {
                &&& extends(b, pos)
                &&& exists|i: int| 0 <= i < n && #[trigger] files[i] == b
                &&& forall|i: int|
                    0 <= i < n && extends(#[trigger] files[i], pos) ==> as_good(b, files[i])
            },
        },
    decreases n,
{
    if n > 0 {
        lemma_best_step(files, pos, (n - 1) as nat);
        if let Some(b) = best_step(files, pos, n) {
            if b != files[n - 1] {
                let i = choose|i: int| 0 <= i < n - 1 && #[trigger] files[i] == b;
                assert(files[i] == b);
            } else {
                assert(files[n - 1] == b);
            }
        }
    }
}

/// The greedy cover: starting at `pos`, repeatedly the best step.
pub open spec fn cover(files: Seq<FileKey>, pos: u64) -> Seq<FileKey>
    decreases u64::MAX - pos,
{
    match best_step(files, pos, files.len()) {
        None => Seq::empty(),
        Some(f) => if f.2 > pos {
            seq![f] + cover(files, f.2)
        } else {
            Seq::empty()
        },
    }
}

/// The TXID that a run of files starting at `pos` ends at.
pub open spec fn reach(run: Seq<FileKey>, pos: u64) -> u64 {
    if run.len() == 0 {
        pos
    } else {
        run.last().2
    }
}

/// `run` is a contiguous run of the files from `pos` on: each file continues
/// where the ones before it end.
pub open spec fn is_run(files: Seq<FileKey>, run: Seq<FileKey>, pos: u64) -> bool
    decreases run.len(),
{
    run.len() == 0 || {
        &&& files.contains(run.first())
        &&& extends(run.first(), pos)
        &&& is_run(files, run.drop_first(), run.first().2)
    }
}

/// The greedy cover is a contiguous run, and nothing extends where it ends.
pub proof fn lemma_cover_is_run(files: Seq<FileKey>, pos: u64)
    ensures
        is_run(files, cover(files, pos), pos),
        reach(cover(files, pos), pos) >= pos,
        forall|i: int|
            0 <= i < files.len() ==> !extends(#[trigger] files[i], reach(cover(files, pos), pos)),
    decreases u64::MAX - pos,
{
    lemma_best_step(files, pos, files.len());
    if let Some(f) = best_step(files, pos, files.len()) {
        let rest = cover(files, f.2);
        lemma_cover_is_run(files, f.2);
        let all = cover(files, pos);
        assert(all == seq![f] + rest);
        assert(all.drop_first() =~= rest);
        assert(files.contains(f));
        if rest.len() > 0 {
            assert(all.last() == rest.last());
        }
    }
}

/// No run reaches further than the greedy cover, and a run of `k` files reaches
/// no further than the first `k` files of the cover (or all of it).
pub proof fn lemma_cover_stays_ahead(
    files: Seq<FileKey>,
    run: Seq<FileKey>,
    from: u64,
    pos: u64,
)
    requires
        is_run(files, run, from),
        from <= pos,
    ensures
        reach(run, from) <= reach(cover(files, pos), pos),
        run.len() <= cover(files, pos).len() ==> reach(run, from) <= reach(
            cover(files, pos).take(run.len() as int),
            pos,
        ),
    decreases run.len(),
{
    let all = cover(files, pos);
    lemma_cover_is_run(files, pos);
    if run.len() == 0 {
        assert(all.take(0).len() == 0);
    } else {
        let g = run.first();
        let rest = run.drop_first();
        lemma_best_step(files, pos, files.len());
        let gi = choose|i: int| 0 <= i < files.len() && files[i] == g;
        assert(files[gi] == g);
        if rest.len() > 0 {
            assert(rest.last() == run.last());
        }
        match best_step(files, pos, files.len()) {
            None => {
                assert(!extends(files[gi], pos));
                assert(g.2 <= pos);
                lemma_cover_stays_ahead(files, rest, g.2, pos);
                assert(all =~= Seq::empty());
            },
            Some(f) => {
                assert(all == seq![f] + cover(files, f.2));
                assert(g.2 <= f.2);
                lemma_cover_stays_ahead(files, rest, g.2, f.2);
                let tail = cover(files, f.2);
                if tail.len() > 0 {
                    assert(all.last() == tail.last());
                }
                if run.len() <= all.len() {
                    let k = run.len() as int;
                    assert(all.take(k) =~= seq![f] + tail.take(k - 1));
                    if k > 1 {
                        assert(all.take(k).last() == tail.take(k - 1).last());
                    } else {
                        assert(all.take(k).last() == f);
                    }
                }
            },
        }
    }
}

/// The greedy cover uses the fewest files: any run that reaches as far has at
/// least as many.
pub proof fn lemma_cover_is_shortest(files: Seq<FileKey>, run: Seq<FileKey>, from: u64)
    requires
        is_run(files, run, from),
        reach(run, from) >= reach(cover(files, from), from),
    ensures
        run.len() >= cover(files, from).len(),
{
    let all = cover(files, from);
    if run.len() < all.len() {
        lemma_cover_stays_ahead(files, run, from, from);
        lemma_cover_ascends(files, from, run.len() as int);
    }
}

/// Each file of the cover reaches further than the ones before it.
proof fn lemma_cover_ascends(files: Seq<FileKey>, pos: u64, k: int)
    requires
        0 <= k < cover(files, pos).len(),
    ensures
        reach(cover(files, pos).take(k), pos) < reach(cover(files, pos), pos),
    decreases u64::MAX - pos,
{
    lemma_best_step(files, pos, files.len());
    let f = best_step(files, pos, files.len())->0;
    let all = cover(files, pos);
    let tail = cover(files, f.2);
    assert(all == seq![f] + tail);
    lemma_cover_is_run(files, f.2);
    if tail.len() > 0 {
        assert(all.last() == tail.last());
    }
    if k > 0 {
        lemma_cover_ascends(files, f.2, k - 1);
        assert(all.take(k) =~= seq![f] + tail.take(k - 1));
        if k > 1 {
            assert(all.take(k).last() == tail.take(k - 1).last());
        } else {
            assert(all.take(k).last() == f);
        }
    }
}

/// Finds the best step from `pos`.
fn next_step(files: &[FileKey], pos: u64) -> (r: Option<FileKey>)
    ensures
        r == best_step(files@, pos, files@.len()),
{
    let mut best: Option<FileKey> = None;
    let mut i: usize = 0;
    while i < files.len()
        invariant
            i <= files@.len(),
            best == best_step(files@, pos, i as nat),
        decreases files@.len() - i,
    {
        let f = files[i];
        if f.2 > pos && f.1 <= pos + 1 {
            match best {
                None => {
                    best = Some(f);
                },
                Some(b) => {
                    if f.2 > b.2 || (f.2 == b.2 && f.0 >= b.0) {
                        best = Some(f);
                    }
                },
            }
        }
        i += 1;
    }
    best
}

/// The greedy cover that all planners share: starting at `from`, repeatedly pick
/// the file that begins contiguously and reaches the furthest, preferring higher
/// (compacted) levels on ties. This uses the fewest files to cover the range.
///
/// Returns the plan (ascending by TXID) and the TXID it reaches, which is `from`
/// itself when nothing extends past it.
pub fn greedy_cover(files: &[FileKey], from: u64) -> (r: (Vec<FileKey>, u64))
    ensures
        r.0@ == cover(files@, from),
        r.1 == reach(cover(files@, from), from),
{
    let mut plan: Vec<FileKey> = Vec::new();
    let mut pos: u64 = from;
    let mut next: Option<FileKey> = next_step(files, pos);
    while next.is_some()
        invariant
            next == best_step(files@, pos, files@.len()),
            cover(files@, from) == plan@ + cover(files@, pos),
            pos == reach(plan@, from),
        decreases u64::MAX - pos,
    {
        let f = next.unwrap();
        proof {
            lemma_best_step(files@, pos, files@.len());
            assert(plan@ + (seq![f] + cover(files@, f.2)) =~= plan@.push(f) + cover(files@, f.2));
        }
        pos = f.2;
        plan.push(f);
        next = next_step(files, pos);
    }
    assert(plan@ + Seq::<FileKey>::empty() =~= plan@);
    (plan, pos)
}

/// What planning a full restore over `files` gives.
pub open spec fn full_plan(files: Seq<FileKey>) -> Result<Seq<FileKey>, SyncError> {
    let plan = cover(files, 0);
    if plan.len() == 0 || plan.first().1 != 1 {
        Err(SyncError::NoSnapshot)
    } else {
        Ok(plan)
    }
}

/// A greedy restore plan covering the whole chain from TXID 1.
pub fn plan_restore(files: &[FileKey]) -> (r: Result<Vec<FileKey>, SyncError>)
    ensures
        match (r, full_plan(files@)) {
            (Ok(p), Ok(s)) => p@ == s,
            (Err(e), Err(se)) => e == se,
            _ => false,
        },
{
    let (plan, _) = greedy_cover(files, 0);
    if plan.len() == 0 || plan[0].1 != 1 {
        return Err(SyncError::NoSnapshot);
    }
    Ok(plan)
}

/// The highest TXID of any file, or 0.
pub open spec fn head(files: Seq<FileKey>) -> u64
    decreases files.len(),
{
    if files.len() == 0 {
        0
    } else {
        let h = head(files.drop_last());
        if files.last().2 > h {
            files.last().2
        } else {
            h
        }
    }
}

pub proof fn lemma_head(files: Seq<FileKey>)
    ensures
        forall|i: int| 0 <= i < files.len() ==> (#[trigger] files[i]).2 <= head(files),
        head(files) > 0 ==> exists|i: int|
            0 <= i < files.len() && (#[trigger] files[i]).2 == head(files),
    decreases files.len(),
{
    if files.len() > 0 {
        let front = files.drop_last();
        lemma_head(front);
        assert forall|i: int| 0 <= i < files.len() implies (#[trigger] files[i]).2 <= head(files) by {
            if i < front.len() {
                assert(front[i] == files[i]);
            }
        }
        if head(files) > 0 && files.last().2 <= head(front) {
            let i = choose|i: int| 0 <= i < front.len() && (#[trigger] front[i]).2 == head(front);
            assert(files[i] == front[i]);
        } else if head(files) > 0 {
            assert(files[files.len() - 1].2 == head(files));
        }
    }
}

/// The highest TXID of any file, or 0 where there is none.
pub fn head_txid(files: &[FileKey]) -> (h: u64)
    ensures
        h == head(files@),
{
    let mut h: u64 = 0;
    let mut i: usize = 0;
    assert(files@.take(0) =~= Seq::empty());
    while i < files.len()
        invariant
            i <= files@.len(),
            h == head(files@.take(i as int)),
        decreases files@.len() - i,
    {
        assert(files@.take(i + 1).drop_last() =~= files@.take(i as int));
        if files[i].2 > h {
            h = files[i].2;
        }
        i += 1;
    }
    assert(files@.take(i as int) =~= files@);
    h
}

/// What planning the delta from `from` over `files` gives.
pub open spec fn delta_plan(files: Seq<FileKey>, from: u64) -> Result<Seq<FileKey>, SyncError> {
    if from >= head(files) {
        Ok(Seq::empty())
    } else if reach(cover(files, from), from) < head(files) {
        Err(SyncError::ChainGap { from })
    } else {
        Ok(cover(files, from))
    }
}

/// A greedy cover of `(from_txid, HEAD]`: the delta a local image at `from_txid`
/// needs to become current. An empty plan means that it is current already. The
/// first file may begin at or before `from_txid`. No contiguous run to HEAD is a
/// gap, not a partial answer.
pub fn plan_restore_from(files: &[FileKey], from_txid: u64) -> (r: Result<Vec<FileKey>, SyncError>)
    ensures
        match (r, delta_plan(files@, from_txid)) {
            (Ok(p), Ok(s)) => p@ == s,
            (Err(e), Err(se)) => e == se,
            _ => false,
        },
{
    let head = head_txid(files);
    if from_txid >= head {
        return Ok(Vec::new());
    }
    let (plan, reached) = greedy_cover(files, from_txid);
    if reached < head {
        return Err(SyncError::ChainGap { from: from_txid });
    }
    Ok(plan)
}

/// The files that end at or before `target`, in order.
pub open spec fn up_to(files: Seq<FileKey>, target: u64) -> Seq<FileKey>
    decreases files.len(),
{
    if files.len() == 0 {
        Seq::empty()
    } else if files.last().2 <= target {
        up_to(files.drop_last(), target).push(files.last())
    } else {
        up_to(files.drop_last(), target)
    }
}

/// The files that end at or before `target`, in order.
fn filter_up_to(files: &[FileKey], target: u64) -> (out: Vec<FileKey>)
    ensures
        out@ == up_to(files@, target),
{
    let mut out: Vec<FileKey> = Vec::new();
    let mut i: usize = 0;
    assert(files@.take(0) =~= Seq::empty());
    while i < files.len()
        invariant
            i <= files@.len(),
            out@ == up_to(files@.take(i as int), target),
        decreases files@.len() - i,
    {
        assert(files@.take(i + 1).drop_last() =~= files@.take(i as int));
        let f = files[i];
        if f.2 <= target {
            out.push(f);
        }
        i += 1;
    }
    assert(files@.take(i as int) =~= files@);
    out
}

/// A restore plan reaching as close to `target` as the available files allow,
/// without overshooting it.
pub fn plan_restore_to(files: &[FileKey], target: u64) -> (r: Result<Vec<FileKey>, SyncError>)
    ensures
        match (r, full_plan(up_to(files@, target))) {
            (Ok(p), Ok(s)) => p@ == s,
            (Err(e), Err(se)) => e == se,
            _ => false,
        },
{
    let filtered = filter_up_to(files, target);
    plan_restore(&filtered)
}

/// A delta plan exists exactly where some contiguous run leads from `from` to
/// the newest TXID, and it then leads there with the fewest files.
pub proof fn lemma_delta_plan_complete(files: Seq<FileKey>, from: u64, run: Seq<FileKey>)
    requires
        from < head(files),
        is_run(files, run, from),
        reach(run, from) == head(files),
    ensures
        delta_plan(files, from) is Ok,
        is_run(files, delta_plan(files, from)->Ok_0, from),
        reach(delta_plan(files, from)->Ok_0, from) == head(files),
        delta_plan(files, from)->Ok_0.len() <= run.len(),
{
    lemma_cover_stays_ahead(files, run, from, from);
    lemma_cover_is_run(files, from);
    lemma_run_reach_bound(files, cover(files, from), from);
    lemma_cover_is_shortest(files, run, from);
}

pub proof fn lemma_run_reach_bound(files: Seq<FileKey>, run: Seq<FileKey>, pos: u64)
    requires
        is_run(files, run, pos),
        pos <= head(files),
    ensures
        reach(run, pos) <= head(files),
    decreases run.len(),
{
    lemma_head(files);
    if run.len() > 0 {
        let rest = run.drop_first();
        let i = choose|i: int| 0 <= i < files.len() && files[i] == run.first();
        assert(files[i] == run.first());
        lemma_run_reach_bound(files, rest, run.first().2);
        if rest.len() > 0 {
            assert(rest.last() == run.last());
        }
    }
}

/// A delta that is refused as a gap has no answer: no contiguous run of the
/// files leads from `from` to the newest TXID.
pub proof fn lemma_chain_gap_is_real(files: Seq<FileKey>, from: u64, run: Seq<FileKey>)
    requires
        delta_plan(files, from) is Err,
        is_run(files, run, from),
    ensures
        delta_plan(files, from) == Err::<Seq<FileKey>, SyncError>(SyncError::ChainGap { from }),
        reach(run, from) < head(files),
{
    lemma_cover_stays_ahead(files, run, from, from);
}

/// A point-in-time plan never overshoots: every file in it ends at or before the
/// target.
pub proof fn lemma_plan_to_never_overshoots(files: Seq<FileKey>, target: u64)
    ensures
        full_plan(up_to(files, target)) matches Ok(p) ==> forall|i: int|
            0 <= i < p.len() ==> (#[trigger] p[i]).2 <= target,
{
    let kept = up_to(files, target);
    lemma_up_to(files, target);
    let p = cover(kept, 0);
    lemma_cover_is_run(kept, 0);
    assert forall|i: int| 0 <= i < p.len() implies (#[trigger] p[i]).2 <= target by {
        lemma_run_members(kept, p, 0, i);
        let k = choose|k: int| 0 <= k < kept.len() && kept[k] == p[i];
        assert(kept[k] == p[i]);
    }
}

/// A point-in-time plan reaches as close to the target as any run of files that
/// does not overshoot it.
pub proof fn lemma_plan_to_reaches_furthest(files: Seq<FileKey>, target: u64, run: Seq<FileKey>)
    requires
        full_plan(up_to(files, target)) is Ok,
        is_run(files, run, 0),
        forall|i: int| 0 <= i < run.len() ==> (#[trigger] run[i]).2 <= target,
    ensures
        reach(run, 0) <= reach(full_plan(up_to(files, target))->Ok_0, 0),
{
    let kept = up_to(files, target);
    lemma_up_to(files, target);
    lemma_run_survives(files, target, run, 0);
    lemma_cover_stays_ahead(kept, run, 0, 0);
}

/// A run that does not overshoot the target is a run of the files up to it.
pub proof fn lemma_run_survives(files: Seq<FileKey>, target: u64, run: Seq<FileKey>, pos: u64)
    requires
        is_run(files, run, pos),
        forall|i: int| 0 <= i < run.len() ==> (#[trigger] run[i]).2 <= target,
    ensures
        is_run(up_to(files, target), run, pos),
    decreases run.len(),
{
    if run.len() > 0 {
        lemma_up_to(files, target);
        assert(run[0].2 <= target);
        assert(files.contains(run.first()));
        assert(up_to(files, target).contains(run.first()));
        assert forall|i: int| 0 <= i < run.drop_first().len() implies (#[trigger] run.drop_first()[i]).2
            <= target by {
            assert(run.drop_first()[i] == run[i + 1]);
        }
        lemma_run_survives(files, target, run.drop_first(), run.first().2);
    }
}

/// Every file of a run is one of the files.
pub proof fn lemma_run_members(files: Seq<FileKey>, run: Seq<FileKey>, pos: u64, i: int)
    requires
        is_run(files, run, pos),
        0 <= i < run.len(),
    ensures
        files.contains(run[i]),
    decreases run.len(),
{
    if i > 0 {
        lemma_run_members(files, run.drop_first(), run.first().2, i - 1);
        assert(run.drop_first()[i - 1] == run[i]);
    }
}

pub proof fn lemma_up_to(files: Seq<FileKey>, target: u64)
    ensures
        forall|f: FileKey| #[trigger]
            up_to(files, target).contains(f) <==> files.contains(f) && f.2 <= target,
    decreases files.len(),
{
    if files.len() > 0 {
        let front = files.drop_last();
        lemma_up_to(front, target);
        let kept = up_to(files, target);
        assert forall|f: FileKey| #[trigger] kept.contains(f) <==> files.contains(f) && f.2 <= target by {
            if kept.contains(f) {
                let k = choose|k: int| 0 <= k < kept.len() && kept[k] == f;
                if files.last().2 <= target && k == kept.len() - 1 {
                    assert(files[files.len() - 1] == f);
                } else {
                    assert(up_to(front, target)[k] == f);
                    assert(up_to(front, target).contains(f));
                    let j = choose|j: int| 0 <= j < front.len() && front[j] == f;
                    assert(files[j] == f);
                }
            }
            if files.contains(f) && f.2 <= target {
                let j = choose|j: int| 0 <= j < files.len() && files[j] == f;
                if j == files.len() - 1 {
                    assert(kept[kept.len() - 1] == f);
                } else {
                    assert(front[j] == f);
                    assert(front.contains(f));
                    assert(up_to(front, target).contains(f));
                    let k = choose|k: int|
                        0 <= k < up_to(front, target).len() && up_to(front, target)[k] == f;
                    assert(kept[k] == f);
                }
            }
        }
    }
}

/// Deleting what is covered keeps the chain restorable. Where the files that are
/// kept hold a run `base` from the start, and only files that end within it are
/// deleted, a full restore from what is kept succeeds and reaches as far as any run
/// of the files did before. This is what lets L0 files go once they are folded into
/// L1.
pub proof fn lemma_deletion_keeps_restorable(
    files: Seq<FileKey>,
    kept: Seq<FileKey>,
    base: Seq<FileKey>,
    run: Seq<FileKey>,
)
    requires
        is_run(files, run, 0),
        is_run(kept, base, 0),
        base.len() > 0,
        forall|f: FileKey| #[trigger]
            files.contains(f) && f.2 > reach(base, 0) ==> kept.contains(f),
        forall|f: FileKey| #[trigger] kept.contains(f) ==> f.1 >= 1,
    ensures
        full_plan(kept) is Ok,
        reach(full_plan(kept)->Ok_0, 0) >= reach(run, 0),
{
    let plan = cover(kept, 0);
    lemma_cover_is_run(kept, 0);
    let g = base.first();
    assert(kept.contains(g));
    let i = choose|i: int| 0 <= i < kept.len() && kept[i] == g;
    assert(extends(kept[i], 0));
    lemma_best_step(kept, 0, kept.len());
    assert(plan.len() > 0);
    assert(kept.contains(plan.first()));
    lemma_cover_stays_ahead(kept, base, 0, 0);
    lemma_no_run_passes(files, kept, run, 0, reach(plan, 0));
}

/// Pruning below a snapshot keeps the chain restorable. Where the file `anchor`
/// that starts at TXID 1 is kept, and only files that end before it does are
/// pruned, a full restore from what is kept succeeds and reaches as far as any run
/// of the files did before.
pub proof fn lemma_pruning_keeps_restorable(
    files: Seq<FileKey>,
    kept: Seq<FileKey>,
    anchor: FileKey,
    run: Seq<FileKey>,
)
    requires
        is_run(files, run, 0),
        kept.contains(anchor),
        anchor.1 == 1,
        anchor.2 >= 1,
        forall|f: FileKey| #[trigger] files.contains(f) && f.2 >= anchor.2 ==> kept.contains(f),
        forall|f: FileKey| #[trigger] kept.contains(f) ==> f.1 >= 1,
    ensures
        full_plan(kept) is Ok,
        reach(full_plan(kept)->Ok_0, 0) >= reach(run, 0),
{
    let q = seq![anchor];
    assert(q.first() == anchor);
    assert(q.drop_first() =~= Seq::<FileKey>::empty());
    assert(is_run(kept, q.drop_first(), anchor.2));
    assert(is_run(kept, q, 0));
    assert(q.last() == anchor);
    lemma_deletion_keeps_restorable(files, kept, q, run);
}

/// Folding files together changes nothing about where a restore arrives. Where the
/// file `key` covers what a run `inputs` of the files covers, and only files within
/// that range are deleted, a full restore succeeds as before and ends at the same
/// TXID.
pub proof fn lemma_folding_keeps_the_reach(
    files: Seq<FileKey>,
    kept: Seq<FileKey>,
    inputs: Seq<FileKey>,
    key: FileKey,
)
    requires
        is_run(files, inputs, 0),
        inputs.len() > 0,
        key.1 == 1,
        key.2 == inputs.last().2,
        kept.contains(key),
        forall|f: FileKey| #[trigger] files.contains(f) && f.2 > key.2 ==> kept.contains(f),
        forall|f: FileKey| #[trigger] kept.contains(f) ==> f == key || files.contains(f),
        forall|f: FileKey| #[trigger] files.contains(f) ==> f.1 >= 1,
    ensures
        full_plan(files) is Ok,
        full_plan(kept) is Ok,
        reach(full_plan(kept)->Ok_0, 0) == reach(full_plan(files)->Ok_0, 0),
{
    let before = cover(files, 0);
    let after = cover(kept, 0);
    lemma_run_is_positive(files, inputs);
    lemma_cover_is_run(files, 0);
    lemma_cover_is_run(kept, 0);
    lemma_deletion_keeps_restorable(files, files, inputs, inputs);
    let q = seq![key];
    assert(q.first() == key);
    assert(q.drop_first() =~= Seq::<FileKey>::empty());
    assert(is_run(kept, q.drop_first(), key.2));
    assert(is_run(kept, q, 0));
    assert(q.last() == key);
    lemma_deletion_keeps_restorable(files, kept, q, before);
    lemma_cover_stays_ahead(files, inputs, 0, 0);
    lemma_no_run_passes(kept, files, after, 0, reach(before, 0));
}

/// A shortcut changes nothing about where a restore arrives. Where the file `key`
/// covers what a run `inputs` of the files covers, wherever that starts, a full restore
/// with it succeeds as before and ends at the same TXID.
pub proof fn lemma_shortcut_keeps_the_reach(
    files: Seq<FileKey>,
    inputs: Seq<FileKey>,
    key: FileKey,
    pos: u64,
)
    requires
        full_plan(files) is Ok,
        is_run(files, inputs, pos),
        inputs.len() > 0,
        key.1 == pos + 1,
        key.2 == inputs.last().2,
        forall|f: FileKey| #[trigger] files.contains(f) ==> f.1 >= 1,
    ensures
        full_plan(files.push(key)) is Ok,
        reach(full_plan(files.push(key))->Ok_0, 0) == reach(full_plan(files)->Ok_0, 0),
{
    let kept = files.push(key);
    let before = cover(files, 0);
    let after = cover(kept, 0);
    let end = reach(before, 0);
    lemma_cover_is_run(files, 0);
    lemma_cover_is_run(kept, 0);
    assert forall|f: FileKey| #[trigger] files.contains(f) implies kept.contains(f) by {
        let i = choose|i: int| 0 <= i < files.len() && files[i] == f;
        assert(kept[i] == f);
    }
    assert forall|f: FileKey| #[trigger] kept.contains(f) implies f.1 >= 1 by {
        let i = choose|i: int| 0 <= i < kept.len() && kept[i] == f;
        if i < files.len() {
            assert(files[i] == f);
            assert(files.contains(f));
        }
    }
    lemma_run_among_more(files, kept, before, 0);
    lemma_deletion_keeps_restorable(files, kept, before, before);
    assert forall|i: int| 0 <= i < kept.len() implies !extends(#[trigger] kept[i], end) by {
        if i < files.len() {
            assert(kept[i] == files[i]);
        } else if extends(key, end) {
            lemma_no_run_passes(files, files, inputs, pos, end);
        }
    }
    lemma_no_run_passes(kept, kept, after, 0, end);
}

/// A run of some files is a run of these and others.
proof fn lemma_run_among_more(
    files: Seq<FileKey>,
    more: Seq<FileKey>,
    run: Seq<FileKey>,
    pos: u64,
)
    requires
        is_run(files, run, pos),
        forall|f: FileKey| #[trigger] files.contains(f) ==> more.contains(f),
    ensures
        is_run(more, run, pos),
    decreases run.len(),
{
    if run.len() > 0 {
        lemma_run_among_more(files, more, run.drop_first(), run.first().2);
    }
}

proof fn lemma_run_is_positive(files: Seq<FileKey>, run: Seq<FileKey>)
    requires
        is_run(files, run, 0),
        run.len() > 0,
    ensures
        run.last().2 > 0,
{
    let rest = run.drop_first();
    if rest.len() > 0 {
        lemma_run_grows(files, rest, run.first().2);
        assert(rest.last() == run.last());
    }
}

proof fn lemma_run_grows(files: Seq<FileKey>, run: Seq<FileKey>, pos: u64)
    requires
        is_run(files, run, pos),
        run.len() > 0,
    ensures
        run.last().2 > pos,
    decreases run.len(),
{
    let rest = run.drop_first();
    if rest.len() > 0 {
        lemma_run_grows(files, rest, run.first().2);
        assert(rest.last() == run.last());
    }
}

/// No run passes `end` where no kept file extends it and every file that ends past
/// it is kept.
proof fn lemma_no_run_passes(
    files: Seq<FileKey>,
    kept: Seq<FileKey>,
    run: Seq<FileKey>,
    pos: u64,
    end: u64,
)
    requires
        is_run(files, run, pos),
        pos <= end,
        forall|f: FileKey| #[trigger] files.contains(f) && f.2 > end ==> kept.contains(f),
        forall|i: int| 0 <= i < kept.len() ==> !extends(#[trigger] kept[i], end),
    ensures
        reach(run, pos) <= end,
    decreases run.len(),
{
    if run.len() > 0 {
        let g = run.first();
        let rest = run.drop_first();
        assert(files.contains(g));
        if g.2 > end {
            assert(kept.contains(g));
            let i = choose|i: int| 0 <= i < kept.len() && kept[i] == g;
            assert(!extends(kept[i], end));
        }
        lemma_no_run_passes(files, kept, rest, g.2, end);
        if rest.len() > 0 {
            assert(rest.last() == run.last());
        }
    }
}

} // verus!
