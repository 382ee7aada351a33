//! What a restore gives back: the database as it was.
//!
//! A history is the state of the database after each transaction. A file of the
//! chain records a range of it: it carries, at their last state in the range, all
//! pages that changed within it. From files that do, every kind of restore arrives
//! at the same image: a full one, oldest file first or newest first, and a delta
//! on top of an older image.

use crate::ltx::decoder::{FileView, PageView, file_of, indexed_page_of, indexed_pages_of};
use crate::ltx::encoder::zeros;
use crate::ltx::format::{Header, header_of, lock_page, valid_page_size};
use crate::ltx::index::{PageIndexElem, page_index_of};
use crate::ltx::stream::overwrite;
use crate::sync::apply::{DeltaShape, delta_run, full_run, takes};
use crate::sync::disk::{
    base_image, file_walk, lemma_pages_written_once, plan_walk, run_image, to_write, written,
};
use crate::sync::image::{
    applied_all, applied_file, image_len, lemma_images_equal, lemma_overwrite_page,
    lemma_page_bounds, lemma_resized_page, page_at, page_start, put_pages, resized,
};
use crate::sync::plan::{
    FileKey, cover, delta_plan, extends, full_plan, head, is_run, lemma_cover_is_run,
    lemma_cover_stays_ahead, lemma_run_reach_bound, reach,
};
use vstd::prelude::*;

verus! {

/// A state of the database: its size in pages, and the data of each page.
pub struct DbState {
    pub commit: u32,
    pub page: spec_fn(u32) -> Seq<u8>,
}

/// The state after each transaction.
pub type History = spec_fn(u64) -> DbState;

/// Before the first transaction there is nothing; every page has the size of a
/// page; and the lock page is never written.
pub open spec fn sound_history(h: History, page_size: u32) -> bool {
    &&& valid_page_size(page_size)
    &&& h(0).commit == 0
    &&& forall|t: u64, p: u32| (#[trigger] (h(t).page)(p)).len() == page_size
    &&& forall|t: u64| #[trigger] (h(t).page)(lock_page(page_size)) == zeros(page_size as nat)
}

/// The image holds the state.
pub open spec fn is_image(img: Seq<u8>, s: DbState, page_size: u32) -> bool {
    &&& img.len() == image_len(s.commit, page_size)
    &&& forall|p: u32| 1 <= p <= s.commit ==> #[trigger] page_at(img, p, page_size) == (s.page)(p)
}

/// One of the pages is page `p`.
pub open spec fn carries(pages: Seq<PageView>, p: u32) -> bool {
    exists|i: int| 0 <= i < pages.len() && (#[trigger] pages[i]).0 == p
}

/// Page `p` exists throughout the transactions from `a` to `b`, and is always the
/// same.
pub open spec fn unchanged(h: History, p: u32, a: int, b: u64) -> bool {
    forall|t: u64|
        a <= t <= b ==> p <= (#[trigger] h(t)).commit && (h(t).page)(p) == (h(b).page)(p)
}

/// The file records the transactions from `min` to `max`: it carries the last
/// state of every page that changed within them, and every page it carries is at
/// its last state.
pub open spec fn records(f: FileView, h: History, page_size: u32, min: u64, max: u64) -> bool {
    &&& 1 <= min <= max
    &&& f.header.page_size == page_size
    &&& f.header.commit == h(max).commit
    &&& forall|i: int|
        0 <= i < f.pages.len() ==> {
            &&& 1 <= (#[trigger] f.pages[i]).0 <= f.header.commit
            &&& f.pages[i].0 != lock_page(page_size)
            &&& f.pages[i].1 == (h(max).page)(f.pages[i].0)
        }
    &&& forall|p: u32|
        1 <= p <= f.header.commit && p != lock_page(page_size) && !carries(f.pages, p)
            ==> #[trigger] unchanged(h, p, min - 1, max)
}

/// The file `key` of the replica decodes, and records the transactions that its
/// key names.
pub open spec fn key_records(
    content: spec_fn(FileKey) -> Seq<u8>,
    h: History,
    page_size: u32,
    key: FileKey,
) -> bool {
    file_of(content(key)) matches Ok(f) && records(f, h, page_size, key.1, key.2)
}

/// So does every file of the plan.
pub open spec fn plan_records(
    content: spec_fn(FileKey) -> Seq<u8>,
    h: History,
    page_size: u32,
    plan: Seq<FileKey>,
) -> bool {
    forall|k: int| 0 <= k < plan.len() ==> key_records(content, h, page_size, #[trigger] plan[k])
}

/// The TXID that the first `k` files of a plan that starts at `pos` end at.
pub open spec fn end_before(plan: Seq<FileKey>, pos: u64, k: int) -> u64 {
    if k <= 0 {
        pos
    } else {
        plan[k - 1].2
    }
}

/// Each file of the plan continues where the ones before it end.
pub open spec fn chained(plan: Seq<FileKey>, pos: u64) -> bool {
    forall|k: int|
        0 <= k < plan.len() ==> extends(#[trigger] plan[k], end_before(plan, pos, k))
}

pub proof fn lemma_run_is_chained(files: Seq<FileKey>, run: Seq<FileKey>, pos: u64)
    requires
        is_run(files, run, pos),
    ensures
        chained(run, pos),
    decreases run.len(),
{
    if run.len() > 0 {
        let rest = run.drop_first();
        lemma_run_is_chained(files, rest, run.first().2);
        assert forall|k: int| 0 <= k < run.len() implies extends(
            #[trigger] run[k],
            end_before(run, pos, k),
        ) by {
            if k > 0 {
                assert(rest[k - 1] == run[k]);
                if k > 1 {
                    assert(rest[k - 2] == run[k - 1]);
                }
                assert(end_before(rest, run.first().2, k - 1) == end_before(run, pos, k));
            }
        }
    }
}

/// The pages behind an index that decodes are the decoded pages.
proof fn lemma_indexed_pages(b: Seq<u8>, es: Seq<PageIndexElem>, page_size: nat, n: nat)
    requires
        indexed_pages_of(b, es, page_size, n) is Ok,
    ensures
        indexed_pages_of(b, es, page_size, n)->Ok_0.0.len() == n,
        forall|i: int|
            0 <= i < n ==> match indexed_page_of(b, #[trigger] es[i], page_size) {
                Ok((ph, d)) => indexed_pages_of(b, es, page_size, n)->Ok_0.0[i] == (ph.pgno, d),
                Err(_) => false,
            },
    decreases n,
{
    if n > 0 {
        lemma_indexed_pages(b, es, page_size, (n - 1) as nat);
    }
}

/// What a file that decodes holds, as its index shows it.
pub proof fn lemma_file_index(b: Seq<u8>)
    requires
        file_of(b) is Ok,
    ensures
        page_index_of(b) is Ok,
        page_index_of(b)->Ok_0.len() == file_of(b)->Ok_0.pages.len(),
        forall|i: int|
            0 <= i < page_index_of(b)->Ok_0.len() ==> match indexed_page_of(
                b,
                #[trigger] page_index_of(b)->Ok_0[i],
                file_of(b)->Ok_0.header.page_size as nat,
            ) {
                Ok((ph, d)) => file_of(b)->Ok_0.pages[i] == (ph.pgno, d),
                Err(_) => false,
            },
{
    let es = page_index_of(b)->Ok_0;
    lemma_indexed_pages(b, es, header_of(b)->Ok_0.page_size as nat, es.len());
}

// --- Oldest file first ---

proof fn lemma_put_pages(
    img: Seq<u8>,
    f: FileView,
    h: History,
    page_size: u32,
    min: u64,
    max: u64,
    n: nat,
)
    requires
        sound_history(h, page_size),
        records(f, h, page_size, min, max),
        img.len() == image_len(f.header.commit, page_size),
        n <= f.pages.len(),
    ensures
        put_pages(img, f.header, f.pages, n) is Ok,
        put_pages(img, f.header, f.pages, n)->Ok_0.len() == img.len(),
        forall|p: u32|
            1 <= p <= f.header.commit ==> #[trigger] page_at(
                put_pages(img, f.header, f.pages, n)->Ok_0,
                p,
                page_size,
            ) == if carries(f.pages.take(n as int), p) {
                (h(max).page)(p)
            } else {
                page_at(img, p, page_size)
            },
    decreases n,
{
    if n == 0 {
        assert(f.pages.take(0).len() == 0);
    } else {
        lemma_put_pages(img, f, h, page_size, min, max, (n - 1) as nat);
        let before = put_pages(img, f.header, f.pages, (n - 1) as nat)->Ok_0;
        let (pgno, data) = f.pages[n - 1];
        let after = put_pages(img, f.header, f.pages, n)->Ok_0;
        let shorter = f.pages.take(n - 1);
        let longer = f.pages.take(n as int);
        lemma_page_bounds(pgno, f.header.commit, page_size);
        assert(data.len() == page_size);
        lemma_overwrite_page(before, f.header.commit, page_size, pgno, data, pgno);
        assert forall|p: u32| 1 <= p <= f.header.commit implies #[trigger] page_at(
            after,
            p,
            page_size,
        ) == if carries(longer, p) {
            (h(max).page)(p)
        } else {
            page_at(img, p, page_size)
        } by {
            lemma_overwrite_page(before, f.header.commit, page_size, pgno, data, p);
            if p == pgno {
                assert(longer[n - 1].0 == p);
            } else {
                if carries(longer, p) {
                    let i = choose|i: int| 0 <= i < longer.len() && (#[trigger] longer[i]).0 == p;
                    assert(shorter[i].0 == p);
                }
                if carries(shorter, p) {
                    let i = choose|i: int| 0 <= i < shorter.len() && (#[trigger] shorter[i]).0 == p;
                    assert(longer[i].0 == p);
                }
                assert(carries(longer, p) == carries(shorter, p));
                assert(page_at(before, p, page_size) == if carries(shorter, p) {
                    (h(max).page)(p)
                } else {
                    page_at(img, p, page_size)
                });
            }
        }
    }
}

/// A file applied to the image at any state of its range, or the one just before
/// it, gives the image at the end of its range.
pub proof fn lemma_file_applies(
    img: Seq<u8>,
    f: FileView,
    h: History,
    page_size: u32,
    t: u64,
    min: u64,
    max: u64,
)
    requires
        sound_history(h, page_size),
        records(f, h, page_size, min, max),
        is_image(img, h(t), page_size),
        min <= t + 1,
        t <= max,
        image_len(f.header.commit, page_size) <= usize::MAX,
    ensures
        applied_file(img, f) is Ok,
        is_image(applied_file(img, f)->Ok_0, h(max), page_size),
{
    let sized = resized(img, image_len(f.header.commit, page_size));
    let n = f.pages.len();
    if f.header.commit >= 1 {
        lemma_resized_page(img, h(t).commit, f.header.commit, page_size, 1);
    } else {
        assert(image_len(0, page_size) == 0);
    }
    lemma_put_pages(sized, f, h, page_size, min, max, n);
    assert(f.pages.take(n as int) =~= f.pages);
    let out = applied_file(img, f)->Ok_0;
    assert forall|p: u32| 1 <= p <= h(max).commit implies #[trigger] page_at(out, p, page_size) == (
    h(max).page)(p) by {
        lemma_resized_page(img, h(t).commit, f.header.commit, page_size, p);
        if !carries(f.pages, p) {
            if p != lock_page(page_size) {
                assert(unchanged(h, p, min - 1, max));
                assert(p <= h(t).commit);
            } else {
                assert((h(t).page)(p) == zeros(page_size as nat));
                assert((h(max).page)(p) == zeros(page_size as nat));
            }
            if p <= h(t).commit {
                assert(page_at(img, p, page_size) == (h(t).page)(p));
            }
        }
    }
}

/// The contents of the files of a plan.
pub open spec fn plan_contents(
    content: spec_fn(FileKey) -> Seq<u8>,
    plan: Seq<FileKey>,
) -> Seq<Seq<u8>> {
    plan.map_values(|k: FileKey| content(k))
}

/// Every state that a plan passes through fits in memory.
pub open spec fn fits_in_memory(h: History, page_size: u32, plan: Seq<FileKey>) -> bool {
    forall|k: int|
        0 <= k < plan.len() ==> image_len(h((#[trigger] plan[k]).2).commit, page_size)
            <= usize::MAX
}

/// Applying the files of a full plan oldest first restores the state that the plan
/// ends at.
pub proof fn lemma_full_restore_oldest_first(
    content: spec_fn(FileKey) -> Seq<u8>,
    h: History,
    page_size: u32,
    plan: Seq<FileKey>,
    n: nat,
)
    requires
        sound_history(h, page_size),
        chained(plan, 0),
        plan_records(content, h, page_size, plan),
        fits_in_memory(h, page_size, plan),
        n <= plan.len(),
    ensures
        applied_all(plan_contents(content, plan), n) is Ok,
        is_image(
            applied_all(plan_contents(content, plan), n)->Ok_0,
            h(end_before(plan, 0, n as int)),
            page_size,
        ),
    decreases n,
{
    if n == 0 {
        assert(image_len(0, page_size) == 0);
    } else {
        lemma_full_restore_oldest_first(content, h, page_size, plan, (n - 1) as nat);
        let img = applied_all(plan_contents(content, plan), (n - 1) as nat)->Ok_0;
        let key = plan[n - 1];
        assert(extends(plan[n - 1], end_before(plan, 0, n - 1)));
        assert(key_records(content, h, page_size, plan[n - 1]));
        let f = file_of(content(key))->Ok_0;
        assert(image_len(h(plan[n - 1].2).commit, page_size) <= usize::MAX);
        lemma_file_applies(
            img,
            f,
            h,
            page_size,
            end_before(plan, 0, n - 1),
            key.1,
            key.2,
        );
        assert(plan_contents(content, plan)[n - 1] == content(key));
    }
}

// --- Newest file first ---

/// The pages from `cursor` on carry page `p`.
pub open spec fn carries_from(pages: Seq<PageView>, cursor: int, p: u32) -> bool {
    exists|i: int| cursor <= i < pages.len() && (#[trigger] pages[i]).0 == p
}

proof fn lemma_file_walk(
    b: Seq<u8>,
    es: Seq<PageIndexElem>,
    page_size: u32,
    commit: u32,
    claimed: Set<u32>,
    cursor: nat,
    pages: Seq<PageView>,
)
    requires
        es.len() == pages.len(),
        forall|i: int|
            0 <= i < es.len() ==> match indexed_page_of(b, #[trigger] es[i], page_size as nat) {
                Ok((ph, d)) => pages[i] == (ph.pgno, d),
                Err(_) => false,
            },
    ensures
        file_walk(b, es, page_size, commit, claimed, cursor) is Ok,
        forall|p: u32| #[trigger]
            file_walk(b, es, page_size, commit, claimed, cursor)->Ok_0.claimed.contains(p) <==> (
            claimed.contains(p) || (1 <= p <= commit && carries_from(pages, cursor as int, p))),
        forall|p: u32|
            1 <= p <= commit && !claimed.contains(p) && carries_from(pages, cursor as int, p)
                ==> #[trigger] carries(
                file_walk(b, es, page_size, commit, claimed, cursor)->Ok_0.writes,
                p,
            ),
        forall|i: int|
            0 <= i < file_walk(b, es, page_size, commit, claimed, cursor)->Ok_0.writes.len()
                ==> pages.contains(
                #[trigger] file_walk(b, es, page_size, commit, claimed, cursor)->Ok_0.writes[i],
            ),
    decreases es.len() - cursor,
{
    let out = file_walk(b, es, page_size, commit, claimed, cursor);
    if cursor >= es.len() {
    } else {
        let e = es[cursor as int];
        let (ph, d) = indexed_page_of(b, es[cursor as int], page_size as nat)->Ok_0;
        let q = ph.pgno;
        assert(pages[cursor as int] == (q, d));
        let taken = takes(q, commit, claimed);
        let next = if taken {
            claimed.insert(q)
        } else {
            claimed
        };
        lemma_file_walk(b, es, page_size, commit, next, cursor + 1, pages);
        let rest = file_walk(b, es, page_size, commit, next, cursor + 1)->Ok_0;
        assert forall|p: u32| #[trigger] carries_from(pages, cursor as int, p) <==> (p == q
            || carries_from(pages, cursor as int + 1, p)) by {
            if carries_from(pages, cursor as int, p) {
                let i = choose|i: int|
                    cursor <= i < pages.len() && (#[trigger] pages[i]).0 == p;
                if i > cursor {
                    assert(pages[i].0 == p);
                }
            }
        }
        let w = out->Ok_0;
        assert forall|p: u32| #[trigger] w.claimed.contains(p) <==> (claimed.contains(p) || (1 <= p
            <= commit && carries_from(pages, cursor as int, p))) by {
            assert(rest.claimed.contains(p) <==> (next.contains(p) || (1 <= p <= commit
                && carries_from(pages, cursor as int + 1, p))));
        }
        assert forall|p: u32|
            1 <= p <= commit && !claimed.contains(p) && carries_from(
                pages,
                cursor as int,
                p,
            ) implies #[trigger] carries(w.writes, p) by {
            if taken && p == q {
                assert(w.writes[0].0 == q);
            } else {
                assert(carries_from(pages, cursor as int + 1, p));
                assert(carries(rest.writes, p));
                let i = choose|i: int| 0 <= i < rest.writes.len() && (#[trigger] rest.writes[i]).0
                    == p;
                if taken {
                    assert(w.writes[i + 1].0 == p);
                }
            }
        }
        assert forall|i: int| 0 <= i < w.writes.len() implies pages.contains(
            #[trigger] w.writes[i],
        ) by {
            if taken {
                if i == 0 {
                    assert(pages[cursor as int] == w.writes[0]);
                } else {
                    assert(w.writes[i] == rest.writes[i - 1]);
                }
            }
        }
    }
}

/// Page `p` exists in the states at `t` and at `to`, and is the same in both.
pub open spec fn settled(h: History, p: u32, t: u64, to: u64) -> bool {
    p <= h(t).commit && (h(t).page)(p) == (h(to).page)(p)
}

/// Page `p` exists at the end of each of the first `n` files of the plan.
pub open spec fn always_present(h: History, p: u32, plan: Seq<FileKey>, n: nat) -> bool {
    forall|k: int| 0 <= k < n ==> p <= h((#[trigger] plan[k]).2).commit
}

/// Every page written is at its state at `to`.
pub open spec fn writes_final(ws: Seq<PageView>, h: History, to: u64) -> bool {
    forall|i: int| 0 <= i < ws.len() ==> (#[trigger] ws[i]).1 == (h(to).page)(ws[i].0)
}

/// Every page that is neither claimed nor written has been the same since `pos`.
pub open spec fn rest_settled(
    ws: Seq<PageView>,
    h: History,
    plan: Seq<FileKey>,
    pos: u64,
    to: u64,
    commit: u32,
    claimed: Set<u32>,
    n: nat,
) -> bool {
    forall|p: u32|
        1 <= p <= commit && !claimed.contains(p) && !#[trigger] carries(ws, p) ==> settled(
            h,
            p,
            pos,
            to,
        ) && always_present(h, p, plan, n)
}

/// Every page that is not claimed is the same at `t` and at `to`.
pub open spec fn unclaimed_settled(
    h: History,
    t: u64,
    to: u64,
    commit: u32,
    claimed: Set<u32>,
) -> bool {
    forall|p: u32| 1 <= p <= commit && !claimed.contains(p) ==> #[trigger] settled(h, p, t, to)
}

/// After a file that records `min..=max`, the pages that are still unclaimed are
/// the same at any earlier state of its range.
proof fn lemma_unclaimed_stay_settled(
    f: FileView,
    h: History,
    page_size: u32,
    min: u64,
    max: u64,
    before: u64,
    to: u64,
    commit: u32,
    claimed: Set<u32>,
    after: Set<u32>,
)
    requires
        records(f, h, page_size, min, max),
        min <= before + 1,
        before <= max,
        lock_page(page_size) <= commit ==> claimed.contains(lock_page(page_size)),
        unclaimed_settled(h, max, to, commit, claimed),
        forall|p: u32| #[trigger]
            after.contains(p) <==> (claimed.contains(p) || (1 <= p <= commit && carries_from(
                f.pages,
                0,
                p,
            ))),
    ensures
        unclaimed_settled(h, before, to, commit, after),
{
    assert forall|p: u32| 1 <= p <= commit && !after.contains(p) implies #[trigger] settled(
        h,
        p,
        before,
        to,
    ) by {
        assert(settled(h, p, max, to));
        if carries(f.pages, p) {
            let i = choose|i: int| 0 <= i < f.pages.len() && (#[trigger] f.pages[i]).0 == p;
            assert(f.pages[i].0 == p);
        }
        assert(unchanged(h, p, min - 1, max));
        assert(p <= h(before).commit);
    }
}

/// Every page that a walk writes of a file is at its final state.
proof fn lemma_file_writes_final(
    b: Seq<u8>,
    h: History,
    page_size: u32,
    min: u64,
    max: u64,
    to: u64,
    commit: u32,
    claimed: Set<u32>,
)
    requires
        file_of(b) is Ok,
        records(file_of(b)->Ok_0, h, page_size, min, max),
        unclaimed_settled(h, max, to, commit, claimed),
    ensures
        page_index_of(b) is Ok,
        file_walk(b, page_index_of(b)->Ok_0, page_size, commit, claimed, 0) is Ok,
        writes_final(
            file_walk(b, page_index_of(b)->Ok_0, page_size, commit, claimed, 0)->Ok_0.writes,
            h,
            to,
        ),
{
    let f = file_of(b)->Ok_0;
    lemma_file_index(b);
    let es = page_index_of(b)->Ok_0;
    lemma_file_walk(b, es, page_size, commit, claimed, 0, f.pages);
    crate::sync::disk::lemma_file_walk_once(b, es, page_size, commit, claimed, 0);
    let ws = file_walk(b, es, page_size, commit, claimed, 0)->Ok_0.writes;
    assert forall|i: int| 0 <= i < ws.len() implies (#[trigger] ws[i]).1 == (h(to).page)(
        ws[i].0,
    ) by {
        assert(takes(ws[i].0, commit, claimed));
        assert(f.pages.contains(ws[i]));
        let j = choose|j: int| 0 <= j < f.pages.len() && f.pages[j] == ws[i];
        assert(f.pages[j].1 == (h(max).page)(f.pages[j].0));
        assert(settled(h, ws[i].0, max, to));
    }
}

/// What a newest-first walk writes: every page it writes is at its final state, and
/// a page that it does not write has been the same since the plan's start.
pub proof fn lemma_plan_walk(
    content: spec_fn(FileKey) -> Seq<u8>,
    h: History,
    page_size: u32,
    plan: Seq<FileKey>,
    pos: u64,
    to: u64,
    commit: u32,
    claimed: Set<u32>,
    left: nat,
)
    requires
        chained(plan, pos),
        plan_records(content, h, page_size, plan),
        left <= plan.len(),
        lock_page(page_size) <= commit ==> claimed.contains(lock_page(page_size)),
        unclaimed_settled(h, end_before(plan, pos, left as int), to, commit, claimed),
    ensures
        plan_walk(content, plan, page_size, commit, claimed, left) is Ok,
        writes_final(plan_walk(content, plan, page_size, commit, claimed, left)->Ok_0, h, to),
        rest_settled(
            plan_walk(content, plan, page_size, commit, claimed, left)->Ok_0,
            h,
            plan,
            pos,
            to,
            commit,
            claimed,
            left,
        ),
    decreases left,
{
    let ws = plan_walk(content, plan, page_size, commit, claimed, left)->Ok_0;
    if left == 0 {
        assert forall|p: u32|
            1 <= p <= commit && !claimed.contains(p) && !#[trigger] carries(ws, p) implies settled(
            h,
            p,
            pos,
            to,
        ) && always_present(h, p, plan, left) by {
            assert(settled(h, p, end_before(plan, pos, 0), to));
        }
    } else {
        let key = plan[left - 1];
        let b = content(key);
        assert(key_records(content, h, page_size, plan[left - 1]));
        assert(extends(plan[left - 1], end_before(plan, pos, left - 1)));
        let f = file_of(b)->Ok_0;
        lemma_file_index(b);
        let es = page_index_of(b)->Ok_0;
        lemma_file_walk(b, es, page_size, commit, claimed, 0, f.pages);
        lemma_file_writes_final(b, h, page_size, key.1, key.2, to, commit, claimed);
        let w = file_walk(b, es, page_size, commit, claimed, 0)->Ok_0;
        lemma_unclaimed_stay_settled(
            f,
            h,
            page_size,
            key.1,
            key.2,
            end_before(plan, pos, left - 1),
            to,
            commit,
            claimed,
            w.claimed,
        );
        assert(lock_page(page_size) <= commit ==> w.claimed.contains(lock_page(page_size)));
        lemma_plan_walk(
            content,
            h,
            page_size,
            plan,
            pos,
            to,
            commit,
            w.claimed,
            (left - 1) as nat,
        );
        let rest = plan_walk(
            content,
            plan,
            page_size,
            commit,
            w.claimed,
            (left - 1) as nat,
        )->Ok_0;
        assert(ws == w.writes + rest);
        lemma_walks_join(
            w.writes,
            rest,
            f,
            h,
            plan,
            pos,
            to,
            commit,
            claimed,
            w.claimed,
            left,
        );
    }
}

proof fn lemma_walks_join(
    first: Seq<PageView>,
    rest: Seq<PageView>,
    f: FileView,
    h: History,
    plan: Seq<FileKey>,
    pos: u64,
    to: u64,
    commit: u32,
    claimed: Set<u32>,
    after: Set<u32>,
    left: nat,
)
    requires
        0 < left <= plan.len(),
        writes_final(first, h, to),
        writes_final(rest, h, to),
        rest_settled(rest, h, plan, pos, to, commit, after, (left - 1) as nat),
        unclaimed_settled(h, plan[left - 1].2, to, commit, claimed),
        forall|p: u32| #[trigger]
            after.contains(p) <==> (claimed.contains(p) || (1 <= p <= commit && carries_from(
                f.pages,
                0,
                p,
            ))),
        forall|p: u32|
            1 <= p <= commit && !claimed.contains(p) && carries_from(f.pages, 0, p)
                ==> #[trigger] carries(first, p),
    ensures
        writes_final(first + rest, h, to),
        rest_settled(first + rest, h, plan, pos, to, commit, claimed, left),
{
    let ws = first + rest;
    assert forall|i: int| 0 <= i < ws.len() implies (#[trigger] ws[i]).1 == (h(to).page)(
        ws[i].0,
    ) by {
        if i < first.len() {
            assert(ws[i] == first[i]);
        } else {
            assert(ws[i] == rest[i - first.len()]);
        }
    }
    assert forall|p: u32|
        1 <= p <= commit && !claimed.contains(p) && !#[trigger] carries(ws, p) implies settled(
        h,
        p,
        pos,
        to,
    ) && always_present(h, p, plan, left) by {
        if carries(first, p) {
            let i = choose|i: int| 0 <= i < first.len() && (#[trigger] first[i]).0 == p;
            assert(ws[i].0 == p);
        }
        if carries(rest, p) {
            let i = choose|i: int| 0 <= i < rest.len() && (#[trigger] rest[i]).0 == p;
            assert(ws[i + first.len()].0 == p);
        }
        assert(!after.contains(p));
        assert(settled(h, p, plan[left - 1].2, to));
        assert(always_present(h, p, plan, (left - 1) as nat));
    }
}

/// Writing pages, each once, changes them and no other.
proof fn lemma_written_page(img: Seq<u8>, ws: Seq<PageView>, commit: u32, page_size: u32, q: u32)
    requires
        img.len() == image_len(commit, page_size),
        1 <= q <= commit,
        forall|i: int|
            0 <= i < ws.len() ==> 1 <= (#[trigger] ws[i]).0 <= commit && ws[i].1.len() == page_size,
        forall|i: int, j: int|
            0 <= i < j < ws.len() ==> (#[trigger] ws[i]).0 != (#[trigger] ws[j]).0,
    ensures
        written(img, ws, page_size).len() == img.len(),
        forall|i: int|
            0 <= i < ws.len() && (#[trigger] ws[i]).0 == q ==> page_at(
                written(img, ws, page_size),
                q,
                page_size,
            ) == ws[i].1,
        !carries(ws, q) ==> page_at(written(img, ws, page_size), q, page_size) == page_at(
            img,
            q,
            page_size,
        ),
    decreases ws.len(),
{
    if ws.len() > 0 {
        let first = ws[0];
        let rest = ws.drop_first();
        let next = overwrite(img, page_start(first.0, page_size), first.1);
        lemma_overwrite_page(img, commit, page_size, first.0, first.1, q);
        assert forall|i: int| 0 <= i < rest.len() implies 1 <= (#[trigger] rest[i]).0 <= commit
            && rest[i].1.len() == page_size by {
            assert(rest[i] == ws[i + 1]);
        }
        assert forall|i: int, j: int| 0 <= i < j < rest.len() implies (#[trigger] rest[i]).0 != (
        #[trigger] rest[j]).0 by {
            assert(rest[i] == ws[i + 1] && rest[j] == ws[j + 1]);
        }
        lemma_written_page(next, rest, commit, page_size, q);
        assert forall|i: int| 0 <= i < ws.len() && (#[trigger] ws[i]).0 == q implies page_at(
            written(img, ws, page_size),
            q,
            page_size,
        ) == ws[i].1 by {
            if i == 0 {
                if carries(rest, q) {
                    let j = choose|j: int| 0 <= j < rest.len() && (#[trigger] rest[j]).0 == q;
                    assert(rest[j] == ws[j + 1]);
                }
            } else {
                assert(rest[i - 1] == ws[i]);
            }
        }
        if !carries(ws, q) {
            if carries(rest, q) {
                let j = choose|j: int| 0 <= j < rest.len() && (#[trigger] rest[j]).0 == q;
                assert(ws[j + 1].0 == q);
            }
            assert(ws[0].0 != q);
        }
    }
}

/// A full restore to a file, newest file first, restores the state that the plan
/// ends at. `old` is whatever the file held before.
pub proof fn lemma_full_restore_newest_first(
    content: spec_fn(FileKey) -> Seq<u8>,
    h: History,
    page_size: u32,
    plan: Seq<FileKey>,
    newest: Header,
    file: Seq<u8>,
)
    requires
        sound_history(h, page_size),
        plan.len() > 0,
        chained(plan, 0),
        plan_records(content, h, page_size, plan),
        header_of(content(plan.last())) == Ok::<Header, crate::ltx::error::LtxError>(newest),
    ensures
        run_image(file, full_run(plan, newest), content) is Ok,
        is_image(
            run_image(file, full_run(plan, newest), content)->Ok_0,
            h(plan.last().2),
            page_size,
        ),
{
    let v = full_run(plan, newest);
    let to = plan.last().2;
    let n = plan.len();
    assert(key_records(content, h, page_size, plan[n - 1]));
    assert(newest.page_size == page_size && newest.commit == h(to).commit);
    lemma_plan_walk(content, h, page_size, plan, 0, to, v.commit, v.claimed, n);
    lemma_pages_written_once(content, plan, page_size, v.commit, v.claimed, n);
    let ws = to_write(v, content)->Ok_0;
    let base = base_image(file, v);
    let out = run_image(file, v, content)->Ok_0;
    if v.commit >= 1 {
        lemma_written_page(base, ws, v.commit, page_size, 1);
    } else {
        if ws.len() > 0 {
            assert(takes(ws[0].0, v.commit, v.claimed));
        }
    }
    assert forall|p: u32| 1 <= p <= h(to).commit implies #[trigger] page_at(out, p, page_size) == (h(
        to,
    ).page)(p) by {
        lemma_written_page(base, ws, v.commit, page_size, p);
        if carries(ws, p) {
            let i = choose|i: int| 0 <= i < ws.len() && (#[trigger] ws[i]).0 == p;
            assert(ws[i].1 == (h(to).page)(ws[i].0));
        } else {
            lemma_page_bounds(p, v.commit, page_size);
            assert(page_at(base, p, page_size) =~= zeros(page_size as nat));
            if p == lock_page(page_size) {
                assert((h(to).page)(p) == zeros(page_size as nat));
            } else {
                assert(!v.claimed.contains(p));
                assert(settled(h, p, 0, to));
            }
        }
    }
}

/// The smallest size that the first `n` files of a plan end at.
pub open spec fn lowest_commit(h: History, plan: Seq<FileKey>, n: nat) -> u32
    decreases n,
{
    if n == 0 {
        u32::MAX
    } else {
        let rest = lowest_commit(h, plan, (n - 1) as nat);
        let c = h(plan[n - 1].2).commit;
        if c < rest {
            c
        } else {
            rest
        }
    }
}

proof fn lemma_lowest_commit(h: History, plan: Seq<FileKey>, n: nat, p: u32)
    requires
        n <= plan.len(),
        always_present(h, p, plan, n),
    ensures
        p <= lowest_commit(h, plan, n),
    decreases n,
{
    if n > 0 {
        assert(p <= h(plan[n - 1].2).commit);
        lemma_lowest_commit(h, plan, (n - 1) as nat, p);
    }
}

/// A delta applied to the image at `from` gives the image at the plan's end.
pub proof fn lemma_delta_restores(
    content: spec_fn(FileKey) -> Seq<u8>,
    h: History,
    page_size: u32,
    plan: Seq<FileKey>,
    from: u64,
    file: Seq<u8>,
)
    requires
        sound_history(h, page_size),
        plan.len() > 0,
        chained(plan, from),
        plan_records(content, h, page_size, plan),
        is_image(file, h(from), page_size),
    ensures
        ({
            let shape = DeltaShape {
                page_size,
                final_commit: h(plan.last().2).commit,
                min_commit: lowest_commit(h, plan, plan.len()),
            };
            &&& run_image(file, delta_run(plan, from, shape), content) is Ok
            &&& is_image(
                run_image(file, delta_run(plan, from, shape), content)->Ok_0,
                h(plan.last().2),
                page_size,
            )
        }),
{
    let shape = DeltaShape {
        page_size,
        final_commit: h(plan.last().2).commit,
        min_commit: lowest_commit(h, plan, plan.len()),
    };
    let v = delta_run(plan, from, shape);
    let to = plan.last().2;
    let n = plan.len();
    lemma_plan_walk(content, h, page_size, plan, from, to, v.commit, v.claimed, n);
    lemma_pages_written_once(content, plan, page_size, v.commit, v.claimed, n);
    let ws = to_write(v, content)->Ok_0;
    let floor = shape.min_commit;
    let cut = resized(file, image_len(floor, page_size));
    let base = base_image(file, v);
    let out = run_image(file, v, content)->Ok_0;
    if floor >= 1 {
        lemma_resized_page(file, h(from).commit, floor, page_size, 1);
    } else {
        assert(image_len(0, page_size) == 0);
    }
    if v.commit >= 1 {
        lemma_resized_page(cut, floor, v.commit, page_size, 1);
        lemma_written_page(base, ws, v.commit, page_size, 1);
    } else {
        assert(image_len(0, page_size) == 0);
        if ws.len() > 0 {
            assert(takes(ws[0].0, v.commit, v.claimed));
        }
    }
    assert forall|p: u32| 1 <= p <= h(to).commit implies #[trigger] page_at(out, p, page_size) == (h(
        to,
    ).page)(p) by {
        lemma_written_page(base, ws, v.commit, page_size, p);
        if carries(ws, p) {
            let i = choose|i: int| 0 <= i < ws.len() && (#[trigger] ws[i]).0 == p;
            assert(ws[i].1 == (h(to).page)(ws[i].0));
        } else {
            lemma_resized_page(cut, floor, v.commit, page_size, p);
            if p <= floor {
                lemma_resized_page(file, h(from).commit, floor, page_size, p);
            }
            if p <= h(from).commit {
                assert(page_at(file, p, page_size) == (h(from).page)(p));
            }
            if p == lock_page(page_size) {
                assert((h(to).page)(p) == zeros(page_size as nat));
                assert((h(from).page)(p) == zeros(page_size as nat));
            } else {
                assert(!v.claimed.contains(p));
                assert(settled(h, p, from, to));
                lemma_lowest_commit(h, plan, n, p);
            }
        }
    }
}

/// Two images of one state are the same image.
pub proof fn lemma_image_unique(a: Seq<u8>, b: Seq<u8>, s: DbState, page_size: u32)
    requires
        page_size > 0,
        is_image(a, s, page_size),
        is_image(b, s, page_size),
    ensures
        a == b,
{
    assert forall|p: u32| 1 <= p <= s.commit implies #[trigger] page_at(a, p, page_size) == page_at(
        b,
        p,
        page_size,
    ) by {
        assert(page_at(b, p, page_size) == (s.page)(p));
    }
    lemma_images_equal(a, b, s.commit, page_size);
}

/// Every page whose content differs between two TXIDs is carried by at least one
/// file of a plan that leads from the one to the other.
pub proof fn lemma_changed_page_is_carried(
    content: spec_fn(FileKey) -> Seq<u8>,
    h: History,
    page_size: u32,
    plan: Seq<FileKey>,
    from: u64,
    p: u32,
)
    requires
        sound_history(h, page_size),
        plan.len() > 0,
        chained(plan, from),
        plan_records(content, h, page_size, plan),
        1 <= p <= h(plan.last().2).commit,
        p > h(from).commit || (h(from).page)(p) != (h(plan.last().2).page)(p),
        p != lock_page(page_size),
    ensures
        exists|k: int|
            0 <= k < plan.len() && carries(file_of(content(#[trigger] plan[k]))->Ok_0.pages, p),
{
    if forall|k: int|
        0 <= k < plan.len() ==> !carries(file_of(content(#[trigger] plan[k]))->Ok_0.pages, p) {
        lemma_uncarried_page_stays(content, h, page_size, plan, from, p, plan.len());
    }
}

proof fn lemma_uncarried_page_stays(
    content: spec_fn(FileKey) -> Seq<u8>,
    h: History,
    page_size: u32,
    plan: Seq<FileKey>,
    from: u64,
    p: u32,
    n: nat,
)
    requires
        chained(plan, from),
        plan_records(content, h, page_size, plan),
        n <= plan.len(),
        p != lock_page(page_size),
        1 <= p <= h(end_before(plan, from, n as int)).commit,
        forall|k: int|
            0 <= k < plan.len() ==> !carries(file_of(content(#[trigger] plan[k]))->Ok_0.pages, p),
    ensures
        settled(h, p, from, end_before(plan, from, n as int)),
    decreases n,
{
    if n > 0 {
        let key = plan[n - 1];
        assert(key_records(content, h, page_size, plan[n - 1]));
        assert(extends(plan[n - 1], end_before(plan, from, n - 1)));
        assert(!carries(file_of(content(plan[n - 1]))->Ok_0.pages, p));
        assert(unchanged(h, p, key.1 - 1, key.2));
        let before = end_before(plan, from, n - 1);
        assert(p <= h(before).commit);
        lemma_uncarried_page_stays(content, h, page_size, plan, from, p, (n - 1) as nat);
    }
}

/// A delta lands on the same image as a full restore. `file` holds the database as
/// of `from`, a TXID that the chain still reaches from its start.
pub proof fn lemma_delta_equals_full_restore(
    content: spec_fn(FileKey) -> Seq<u8>,
    h: History,
    page_size: u32,
    files: Seq<FileKey>,
    from: u64,
    file: Seq<u8>,
    other: Seq<u8>,
    newest: Header,
)
    requires
        sound_history(h, page_size),
        plan_records(content, h, page_size, files),
        is_image(file, h(from), page_size),
        from < head(files),
        delta_plan(files, from) is Ok,
        full_plan(files) is Ok,
        reach(full_plan(files)->Ok_0, 0) >= from,
        header_of(content(full_plan(files)->Ok_0.last())) == Ok::<
            Header,
            crate::ltx::error::LtxError,
        >(newest),
    ensures
        ({
            let delta = delta_plan(files, from)->Ok_0;
            let full = full_plan(files)->Ok_0;
            let shape = DeltaShape {
                page_size,
                final_commit: h(head(files)).commit,
                min_commit: lowest_commit(h, delta, delta.len()),
            };
            &&& run_image(file, delta_run(delta, from, shape), content) is Ok
            &&& run_image(file, delta_run(delta, from, shape), content) == run_image(
                other,
                full_run(full, newest),
                content,
            )
            &&& is_image(
                run_image(file, delta_run(delta, from, shape), content)->Ok_0,
                h(head(files)),
                page_size,
            )
        }),
{
    let delta = delta_plan(files, from)->Ok_0;
    let full = full_plan(files)->Ok_0;
    lemma_plans_meet(files, from);
    lemma_plan_of_files(content, h, page_size, files, delta, from);
    lemma_plan_of_files(content, h, page_size, files, full, 0);
    lemma_delta_restores(content, h, page_size, delta, from, file);
    lemma_full_restore_newest_first(content, h, page_size, full, newest, other);
    let shape = DeltaShape {
        page_size,
        final_commit: h(head(files)).commit,
        min_commit: lowest_commit(h, delta, delta.len()),
    };
    lemma_image_unique(
        run_image(file, delta_run(delta, from, shape), content)->Ok_0,
        run_image(other, full_run(full, newest), content)->Ok_0,
        h(head(files)),
        page_size,
    );
}

/// A delta plan and a full plan that reaches its start end at the same TXID, the
/// newest.
proof fn lemma_plans_meet(files: Seq<FileKey>, from: u64)
    requires
        from < head(files),
        delta_plan(files, from) is Ok,
        full_plan(files) is Ok,
        reach(full_plan(files)->Ok_0, 0) >= from,
    ensures
        ({
            let delta = delta_plan(files, from)->Ok_0;
            let full = full_plan(files)->Ok_0;
            &&& delta.len() > 0
            &&& full.len() > 0
            &&& delta.last().2 == head(files)
            &&& full.last().2 == head(files)
            &&& is_run(files, delta, from)
            &&& is_run(files, full, 0)
            &&& chained(delta, from)
            &&& chained(full, 0)
        }),
{
    let delta = delta_plan(files, from)->Ok_0;
    let full = full_plan(files)->Ok_0;
    lemma_cover_is_run(files, from);
    lemma_cover_is_run(files, 0);
    lemma_run_reach_bound(files, full, 0);
    lemma_run_reach_bound(files, delta, from);
    let end = reach(full, 0);
    lemma_cover_stays_ahead(files, delta, from, end);
    lemma_nothing_extends(files, end);
    lemma_run_is_chained(files, delta, from);
    lemma_run_is_chained(files, full, 0);
}

proof fn lemma_nothing_extends(files: Seq<FileKey>, pos: u64)
    requires
        forall|i: int| 0 <= i < files.len() ==> !extends(#[trigger] files[i], pos),
    ensures
        cover(files, pos).len() == 0,
{
    crate::sync::plan::lemma_best_step(files, pos, files.len());
}

pub proof fn lemma_plan_of_files(
    content: spec_fn(FileKey) -> Seq<u8>,
    h: History,
    page_size: u32,
    files: Seq<FileKey>,
    run: Seq<FileKey>,
    pos: u64,
)
    requires
        plan_records(content, h, page_size, files),
        is_run(files, run, pos),
    ensures
        plan_records(content, h, page_size, run),
    decreases run.len(),
{
    if run.len() > 0 {
        let rest = run.drop_first();
        lemma_plan_of_files(content, h, page_size, files, rest, run.first().2);
        assert forall|k: int| 0 <= k < run.len() implies key_records(
            content,
            h,
            page_size,
            #[trigger] run[k],
        ) by {
            if k == 0 {
                let i = choose|i: int| 0 <= i < files.len() && files[i] == run.first();
                assert(key_records(content, h, page_size, files[i]));
            } else {
                assert(rest[k - 1] == run[k]);
            }
        }
    }
}

} // verus!
