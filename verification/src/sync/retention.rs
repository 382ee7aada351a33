//! Time-based retention decisions, over listings that carry creation times.
//!
//! Universal rule: **never delete the newest file at a level** (the frontier a
//! reader or a resume needs), even if it is otherwise eligible.

use crate::storage::LtxFileInfo;
use crate::time::Time;
use vstd::prelude::*;

verus! {

/// The file is older than `cutoff`. A file of unknown age is not.
pub open spec fn is_expired(f: LtxFileInfo, cutoff: Time) -> bool {
    f.created_at matches Some(t) && t.nanos < cutoff.nanos
}

/// The files older than `cutoff`, in order.
pub open spec fn expired_files(files: Seq<LtxFileInfo>, cutoff: Time) -> Seq<LtxFileInfo>
    decreases files.len(),
{
    if files.len() == 0 {
        Seq::empty()
    } else if is_expired(files.last(), cutoff) {
        expired_files(files.drop_last(), cutoff).push(files.last())
    } else {
        expired_files(files.drop_last(), cutoff)
    }
}

/// The smallest maximum TXID among the files that are not older than `cutoff`,
/// or 0. (A maximum TXID of 0 counts as none.)
pub open spec fn min_retained(files: Seq<LtxFileInfo>, cutoff: Time) -> u64
    decreases files.len(),
{
    if files.len() == 0 {
        0
    } else {
        let m = min_retained(files.drop_last(), cutoff);
        let f = files.last();
        if !is_expired(f, cutoff) && (m == 0 || f.max_txid < m) {
            f.max_txid
        } else {
            m
        }
    }
}

/// `deleted` without the newest of `files`, where it ends with it.
pub open spec fn spare_newest(files: Seq<LtxFileInfo>, deleted: Seq<LtxFileInfo>) -> Seq<
    LtxFileInfo,
> {
    if files.len() > 0 && deleted.len() > 0 && deleted.last() == files.last() {
        deleted.drop_last()
    } else {
        deleted
    }
}

fn same_file(a: &LtxFileInfo, b: &LtxFileInfo) -> (r: bool)
    ensures
        r == (*a == *b),
{
    let created: bool = match (a.created_at, b.created_at) {
        (None, None) => true,
        (Some(x), Some(y)) => x.nanos == y.nanos,
        _ => false,
    };
    a.level == b.level && a.min_txid == b.min_txid && a.max_txid == b.max_txid && a.size == b.size
        && created
}

/// Drops the newest file from `deleted` if it is the newest of `files`. Both
/// ascend by TXID.
fn keep_newest(files: &[LtxFileInfo], deleted: &mut Vec<LtxFileInfo>)
    ensures
        final(deleted)@ == spare_newest(files@, old(deleted)@),
{
    let n: usize = files.len();
    let m: usize = deleted.len();
    if n > 0 && m > 0 && same_file(&deleted[m - 1], &files[n - 1]) {
        deleted.pop();
    }
}

fn expired(f: &LtxFileInfo, cutoff: Time) -> (r: bool)
    ensures
        r == is_expired(*f, cutoff),
{
    match f.created_at {
        Some(t) => t.before(cutoff),
        None => false,
    }
}

/// Snapshot-level retention: which snapshots to delete (those older than
/// `cutoff`, but never the newest), and the smallest maximum TXID among the
/// files kept by the age rule (0 if none), below which lower levels are pruned.
pub fn snapshot_expired(files: &[LtxFileInfo], cutoff: Time) -> (r: (Vec<LtxFileInfo>, u64))
    ensures
        r.0@ == spare_newest(files@, expired_files(files@, cutoff)),
        r.1 == min_retained(files@, cutoff),
{
    let mut deleted: Vec<LtxFileInfo> = Vec::new();
    let mut min_retained: u64 = 0;
    let mut i: usize = 0;
    assert(files@.take(0) =~= Seq::empty());
    while i < files.len()
        invariant
            i <= files@.len(),
            deleted@ == expired_files(files@.take(i as int), cutoff),
            min_retained == self::min_retained(files@.take(i as int), cutoff),
        decreases files@.len() - i,
    {
        assert(files@.take(i + 1).drop_last() =~= files@.take(i as int));
        let f = files[i];
        if expired(&f, cutoff) {
            deleted.push(f);
        } else if min_retained == 0 || f.max_txid < min_retained {
            min_retained = f.max_txid;
        }
        i += 1;
    }
    assert(files@.take(i as int) =~= files@);
    keep_newest(files, &mut deleted);
    (deleted, min_retained)
}

/// How many files stand before the first one that is not older than `cutoff`.
pub open spec fn old_prefix(files: Seq<LtxFileInfo>, cutoff: Time) -> nat
    decreases files.len(),
{
    if files.len() == 0 || !is_expired(files[0], cutoff) {
        0
    } else {
        1 + old_prefix(files.drop_first(), cutoff)
    }
}

/// The files whose maximum TXID is at most `txid`, in order.
pub open spec fn folded_files(files: Seq<LtxFileInfo>, txid: u64) -> Seq<LtxFileInfo>
    decreases files.len(),
{
    if files.len() == 0 {
        Seq::empty()
    } else if files.last().max_txid <= txid {
        folded_files(files.drop_last(), txid).push(files.last())
    } else {
        folded_files(files.drop_last(), txid)
    }
}

/// Which L0 files to delete: of the files before the first one that is not older
/// than `cutoff`, those folded into L1; never the newest, and nothing while L1 is
/// empty.
pub open spec fn l0_deletions(files: Seq<LtxFileInfo>, max_l1_txid: u64, cutoff: Time) -> Seq<
    LtxFileInfo,
> {
    let n = old_prefix(files, cutoff) as int;
    if max_l1_txid == 0 {
        Seq::empty()
    } else if n == files.len() {
        spare_newest(files, folded_files(files, max_l1_txid))
    } else {
        folded_files(files.take(n), max_l1_txid)
    }
}

proof fn lemma_old_prefix(files: Seq<LtxFileInfo>, cutoff: Time, i: int)
    requires
        0 <= i <= files.len(),
        forall|k: int| 0 <= k < i ==> is_expired(#[trigger] files[k], cutoff),
    ensures
        i < files.len() && !is_expired(files[i], cutoff) ==> old_prefix(files, cutoff) == i,
        i == files.len() ==> old_prefix(files, cutoff) == i,
        old_prefix(files, cutoff) >= i,
        old_prefix(files, cutoff) <= files.len(),
    decreases files.len(),
{
    if i > 0 {
        assert(is_expired(files[0], cutoff));
        assert forall|k: int| 0 <= k < i - 1 implies is_expired(
            #[trigger] files.drop_first()[k],
            cutoff,
        ) by {
            assert(files.drop_first()[k] == files[k + 1]);
        }
        lemma_old_prefix(files.drop_first(), cutoff, i - 1);
    } else if files.len() > 0 && is_expired(files[0], cutoff) {
        lemma_old_prefix(files.drop_first(), cutoff, 0);
    }
}

/// L0 retention: an L0 file is deletable only once it has been folded into L1
/// (`max_txid <= max_l1_txid`) **and** is older than `cutoff`. Stops at the first
/// file that is not, or whose age is unknown, to preserve a contiguous L0 tail,
/// and keeps the newest. Returns nothing while `max_l1_txid == 0`.
pub fn l0_expired(files: &[LtxFileInfo], max_l1_txid: u64, cutoff: Time) -> (r: Vec<LtxFileInfo>)
    ensures
        r@ == l0_deletions(files@, max_l1_txid, cutoff),
{
    if max_l1_txid == 0 {
        return Vec::new();
    }
    let mut deleted: Vec<LtxFileInfo> = Vec::new();
    let mut i: usize = 0;
    assert(files@.take(0) =~= Seq::empty());
    while i < files.len()
        invariant
            i <= files@.len(),
            max_l1_txid > 0,
            deleted@ == folded_files(files@.take(i as int), max_l1_txid),
            forall|k: int| 0 <= k < i ==> is_expired(#[trigger] files@[k], cutoff),
        decreases files@.len() - i,
    {
        let f = files[i];
        if !expired(&f, cutoff) {
            proof {
                lemma_old_prefix(files@, cutoff, i as int);
            }
            return deleted;
        }
        assert(files@.take(i + 1).drop_last() =~= files@.take(i as int));
        if f.max_txid <= max_l1_txid {
            deleted.push(f);
        }
        i += 1;
    }
    proof {
        lemma_old_prefix(files@, cutoff, i as int);
        assert(files@.take(i as int) =~= files@);
    }
    keep_newest(files, &mut deleted);
    deleted
}

/// The files whose maximum TXID is below `txid`, in order.
pub open spec fn files_below(files: Seq<LtxFileInfo>, txid: u64) -> Seq<LtxFileInfo>
    decreases files.len(),
{
    if files.len() == 0 {
        Seq::empty()
    } else if files.last().max_txid < txid {
        files_below(files.drop_last(), txid).push(files.last())
    } else {
        files_below(files.drop_last(), txid)
    }
}

/// TXID retention: which files to delete, those whose `max_txid` is below
/// `txid`, but never the newest.
pub fn below_txid(files: &[LtxFileInfo], txid: u64) -> (r: Vec<LtxFileInfo>)
    ensures
        r@ == spare_newest(files@, files_below(files@, txid)),
{
    let mut deleted: Vec<LtxFileInfo> = Vec::new();
    let mut i: usize = 0;
    assert(files@.take(0) =~= Seq::empty());
    while i < files.len()
        invariant
            i <= files@.len(),
            deleted@ == files_below(files@.take(i as int), txid),
        decreases files@.len() - i,
    {
        assert(files@.take(i + 1).drop_last() =~= files@.take(i as int));
        let f = files[i];
        if f.max_txid < txid {
            deleted.push(f);
        }
        i += 1;
    }
    assert(files@.take(i as int) =~= files@);
    keep_newest(files, &mut deleted);
    deleted
}

/// No file is listed twice.
pub open spec fn distinct(files: Seq<LtxFileInfo>) -> bool {
    forall|i: int, j: int| 0 <= i < j < files.len() ==> #[trigger] files[i] != #[trigger] files[j]
}

/// Retention never deletes the newest file of a level, whichever rule is
/// applied and whatever its parameters.
pub proof fn lemma_newest_survives(
    files: Seq<LtxFileInfo>,
    cutoff: Time,
    max_l1_txid: u64,
    txid: u64,
)
    requires
        files.len() > 0,
        distinct(files),
    ensures
        !spare_newest(files, expired_files(files, cutoff)).contains(files.last()),
        !l0_deletions(files, max_l1_txid, cutoff).contains(files.last()),
        !spare_newest(files, files_below(files, txid)).contains(files.last()),
{
    let front = files.drop_last();
    assert(!front.contains(files.last())) by {
        if front.contains(files.last()) {
            let k = choose|k: int| 0 <= k < front.len() && front[k] == files.last();
            assert(files[k] == files[files.len() - 1]);
        }
    }
    lemma_expired_members(front, cutoff);
    lemma_folded_members(front, max_l1_txid);
    lemma_below_members(front, txid);
    lemma_spared(files, expired_files(front, cutoff), expired_files(files, cutoff));
    lemma_spared(files, folded_files(front, max_l1_txid), folded_files(files, max_l1_txid));
    lemma_spared(files, files_below(front, txid), files_below(files, txid));
    lemma_old_prefix(files, cutoff, 0);
    let n = old_prefix(files, cutoff) as int;
    if n < files.len() {
        lemma_folded_members(files.take(n), max_l1_txid);
        if folded_files(files.take(n), max_l1_txid).contains(files.last()) {
            assert(files.take(n).contains(files.last()));
            let k = choose|k: int| 0 <= k < n && files.take(n)[k] == files.last();
            assert(files[k] == files[files.len() - 1]);
        }
    }
}

proof fn lemma_spared(
    files: Seq<LtxFileInfo>,
    front: Seq<LtxFileInfo>,
    all: Seq<LtxFileInfo>,
)
    requires
        files.len() > 0,
        !front.contains(files.last()),
        all == front || all == front.push(files.last()),
    ensures
        !spare_newest(files, all).contains(files.last()),
{
    if all == front.push(files.last()) {
        assert(all.drop_last() =~= front);
    } else if all.len() > 0 && all.last() == files.last() {
        assert(front[front.len() - 1] == files.last());
        assert(front.contains(files.last()));
    }
}

proof fn lemma_expired_members(files: Seq<LtxFileInfo>, cutoff: Time)
    ensures
        forall|f: LtxFileInfo| #[trigger]
            expired_files(files, cutoff).contains(f) ==> files.contains(f) && is_expired(f, cutoff),
    decreases files.len(),
{
    if files.len() > 0 {
        let front = files.drop_last();
        lemma_expired_members(front, cutoff);
        lemma_member_step(files, expired_files(front, cutoff), expired_files(files, cutoff));
    }
}

proof fn lemma_folded_members(files: Seq<LtxFileInfo>, txid: u64)
    ensures
        forall|f: LtxFileInfo| #[trigger]
            folded_files(files, txid).contains(f) ==> files.contains(f) && f.max_txid <= txid,
    decreases files.len(),
{
    if files.len() > 0 {
        let front = files.drop_last();
        lemma_folded_members(front, txid);
        lemma_member_step(files, folded_files(front, txid), folded_files(files, txid));
    }
}

proof fn lemma_below_members(files: Seq<LtxFileInfo>, txid: u64)
    ensures
        forall|f: LtxFileInfo| #[trigger]
            files_below(files, txid).contains(f) ==> files.contains(f) && f.max_txid < txid,
    decreases files.len(),
{
    if files.len() > 0 {
        let front = files.drop_last();
        lemma_below_members(front, txid);
        lemma_member_step(files, files_below(front, txid), files_below(files, txid));
    }
}

proof fn lemma_member_step(
    files: Seq<LtxFileInfo>,
    front: Seq<LtxFileInfo>,
    all: Seq<LtxFileInfo>,
)
    requires
        files.len() > 0,
        all == front || all == front.push(files.last()),
        forall|f: LtxFileInfo| #[trigger] front.contains(f) ==> files.drop_last().contains(f),
    ensures
        forall|f: LtxFileInfo| #[trigger]
            all.contains(f) ==> files.contains(f) && (front.contains(f) || (f == files.last() && all
                == front.push(files.last()))),
{
    assert forall|f: LtxFileInfo| #[trigger] all.contains(f) implies files.contains(f) && (
    front.contains(f) || (f == files.last() && all == front.push(files.last()))) by {
        let k = choose|k: int| 0 <= k < all.len() && all[k] == f;
        if k < front.len() {
            assert(front[k] == f);
            assert(front.contains(f));
            let j = choose|j: int| 0 <= j < files.drop_last().len() && files.drop_last()[j] == f;
            assert(files[j] == f);
        } else {
            assert(files[files.len() - 1] == f);
        }
    }
}

proof fn lemma_prefix_is_old(files: Seq<LtxFileInfo>, cutoff: Time)
    ensures
        old_prefix(files, cutoff) <= files.len(),
        forall|k: int|
            0 <= k < old_prefix(files, cutoff) ==> is_expired(#[trigger] files[k], cutoff),
    decreases files.len(),
{
    if files.len() > 0 && is_expired(files[0], cutoff) {
        let rest = files.drop_first();
        lemma_prefix_is_old(rest, cutoff);
        assert forall|k: int| 0 <= k < old_prefix(files, cutoff) implies is_expired(
            #[trigger] files[k],
            cutoff,
        ) by {
            if k > 0 {
                assert(rest[k - 1] == files[k]);
            }
        }
    }
}

/// The prefix holds files older than the cutoff, and ends at one that is not.
pub proof fn lemma_old_prefix_ends(files: Seq<LtxFileInfo>, cutoff: Time)
    ensures
        old_prefix(files, cutoff) <= files.len(),
        forall|k: int|
            0 <= k < old_prefix(files, cutoff) ==> is_expired(#[trigger] files[k], cutoff),
        old_prefix(files, cutoff) < files.len() ==> !is_expired(
            files[old_prefix(files, cutoff) as int],
            cutoff,
        ),
    decreases files.len(),
{
    lemma_prefix_is_old(files, cutoff);
    if files.len() > 0 && is_expired(files[0], cutoff) {
        let rest = files.drop_first();
        lemma_old_prefix_ends(rest, cutoff);
        let n = old_prefix(rest, cutoff) as int;
        if n < rest.len() {
            assert(rest[n] == files[n + 1]);
        }
    }
}

/// A deleted L0 file was folded into L1, so its contents are still there, and is
/// older than the cutoff.
pub proof fn lemma_l0_deletions_are_folded(
    files: Seq<LtxFileInfo>,
    max_l1_txid: u64,
    cutoff: Time,
    f: LtxFileInfo,
)
    requires
        l0_deletions(files, max_l1_txid, cutoff).contains(f),
    ensures
        f.max_txid <= max_l1_txid,
        is_expired(f, cutoff),
        files.contains(f),
{
    lemma_old_prefix(files, cutoff, 0);
    lemma_prefix_is_old(files, cutoff);
    let n = old_prefix(files, cutoff) as int;
    lemma_folded_members(files, max_l1_txid);
    lemma_folded_members(files.take(n), max_l1_txid);
    let d = l0_deletions(files, max_l1_txid, cutoff);
    let k = choose|k: int| 0 <= k < d.len() && d[k] == f;
    if n == files.len() {
        assert(folded_files(files, max_l1_txid)[k] == f);
        assert(folded_files(files, max_l1_txid).contains(f));
        let j = choose|j: int| 0 <= j < files.len() && files[j] == f;
        assert(is_expired(files[j], cutoff));
    } else {
        assert(folded_files(files.take(n), max_l1_txid).contains(f));
        let j = choose|j: int| 0 <= j < n && files.take(n)[j] == f;
        assert(files[j] == f);
    }
}

/// TXID retention deletes only files that end below the TXID.
pub proof fn lemma_pruned_files_lie_below(files: Seq<LtxFileInfo>, txid: u64, f: LtxFileInfo)
    requires
        spare_newest(files, files_below(files, txid)).contains(f),
    ensures
        f.max_txid < txid,
        files.contains(f),
{
    lemma_below_members(files, txid);
    let d = spare_newest(files, files_below(files, txid));
    let k = choose|k: int| 0 <= k < d.len() && d[k] == f;
    assert(files_below(files, txid)[k] == f);
    assert(files_below(files, txid).contains(f));
}

/// The TXID below which lower levels are pruned is the end of a snapshot that is
/// kept, and no kept snapshot ends below it.
pub proof fn lemma_min_retained_is_kept(files: Seq<LtxFileInfo>, cutoff: Time)
    requires
        forall|i: int| 0 <= i < files.len() ==> (#[trigger] files[i]).max_txid > 0,
    ensures
        min_retained(files, cutoff) > 0 ==> exists|i: int|
            0 <= i < files.len() && (#[trigger] files[i]).max_txid == min_retained(files, cutoff)
                && !is_expired(files[i], cutoff),
        forall|i: int|
            0 <= i < files.len() && !is_expired(#[trigger] files[i], cutoff) ==> 0 < min_retained(
                files,
                cutoff,
            ) <= files[i].max_txid,
    decreases files.len(),
{
    if files.len() > 0 {
        let front = files.drop_last();
        assert forall|i: int| 0 <= i < front.len() implies (#[trigger] front[i]).max_txid > 0 by {
            assert(front[i] == files[i]);
        }
        lemma_min_retained_is_kept(front, cutoff);
        let m = min_retained(files, cutoff);
        if m > 0 {
            if !is_expired(files.last(), cutoff) && m == files.last().max_txid {
                assert(files[files.len() - 1].max_txid == m);
            } else {
                let i = choose|i: int|
                    0 <= i < front.len() && (#[trigger] front[i]).max_txid == min_retained(
                        front,
                        cutoff,
                    ) && !is_expired(front[i], cutoff);
                assert(files[i] == front[i]);
            }
        }
        assert forall|i: int|
            0 <= i < files.len() && !is_expired(#[trigger] files[i], cutoff) implies 0 < m
            <= files[i].max_txid by {
            if i < front.len() {
                assert(front[i] == files[i]);
            }
        }
    }
}

} // verus!
