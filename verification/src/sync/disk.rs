//! What a run of [`ApplyRun`] leaves on the disk, at its end and at every moment
//! before.
//!
//! [`ApplyRun`]: crate::sync::apply::ApplyRun

use crate::ltx::decoder::{PageView, indexed_page_of, lemma_indexed_page_len};
use crate::ltx::encoder::zeros;
use crate::ltx::error::LtxError;
use crate::ltx::format::{Header, lock_page, valid_page_size};
use crate::ltx::index::{PageIndexElem, page_index_of};
use crate::ltx::stream::overwrite;
use crate::sync::apply::{
    ActionView, ApplyRun, ApplyStage, DeltaShape, DenseSet, Marker, RunView, SparseSet,
    lemma_offset_fits, next_page, run_len, run_step, run_wf, supplied, takes,
};
use crate::sync::error::SyncError;
use crate::sync::image::{image_len, lemma_page_bounds, page_start, resized};
use crate::sync::plan::FileKey;
use vstd::prelude::*;

verus! {

/// The disk, as far as a restore concerns it: the marker beside the database, the
/// bytes of the database file, and whether those are durable.
#[verifier::ext_equal]
pub struct Disk {
    pub marker: Option<Marker>,
    pub file: Seq<u8>,
    pub synced: bool,
}

/// The disk after an action.
pub open spec fn performed(d: Disk, a: ActionView) -> Disk {
    match a {
        ActionView::WriteMarker(m) => Disk { marker: Some(m), ..d },
        ActionView::Create => Disk { file: Seq::empty(), synced: false, ..d },
        ActionView::SetLen(n) => Disk { file: resized(d.file, n as nat), synced: false, ..d },
        ActionView::WritePage { offset, data } => Disk {
            file: overwrite(d.file, offset as int, data),
            synced: false,
            ..d
        },
        ActionView::SyncAll => Disk { synced: true, ..d },
        _ => d,
    }
}

/// The pages that a walk writes, and the pages claimed after it.
#[verifier::ext_equal]
pub struct Walk {
    pub writes: Seq<PageView>,
    pub claimed: Set<u32>,
}

/// The pages that a walk writes of the file `b` with the index `es`, from entry
/// `cursor` on.
pub open spec fn file_walk(
    b: Seq<u8>,
    es: Seq<PageIndexElem>,
    page_size: u32,
    commit: u32,
    claimed: Set<u32>,
    cursor: nat,
) -> Result<Walk, SyncError>
    decreases es.len() - cursor,
{
    if cursor >= es.len() {
        Ok(Walk { writes: Seq::empty(), claimed })
    } else {
        match indexed_page_of(b, es[cursor as int], page_size as nat) {
            Err(e) => Err(SyncError::Ltx(e)),
            Ok((ph, d)) => if takes(ph.pgno, commit, claimed) {
                match file_walk(
                    b,
                    es,
                    page_size,
                    commit,
                    claimed.insert(ph.pgno),
                    cursor + 1,
                ) {
                    Err(e) => Err(e),
                    Ok(w) => Ok(
                        Walk { writes: seq![(ph.pgno, d)] + w.writes, claimed: w.claimed },
                    ),
                }
            } else {
                file_walk(b, es, page_size, commit, claimed, cursor + 1)
            },
        }
    }
}

/// The pages that a walk writes of the first `left` files of a plan, newest file
/// first. `content` is what the replica holds.
pub open spec fn plan_walk(
    content: spec_fn(FileKey) -> Seq<u8>,
    plan: Seq<FileKey>,
    page_size: u32,
    commit: u32,
    claimed: Set<u32>,
    left: nat,
) -> Result<Seq<PageView>, SyncError>
    decreases left,
{
    if left == 0 {
        Ok(Seq::empty())
    } else {
        let b = content(plan[left - 1]);
        match page_index_of(b) {
            Err(e) => Err(SyncError::Ltx(e)),
            Ok(es) => match file_walk(b, es, page_size, commit, claimed, 0) {
                Err(e) => Err(e),
                Ok(w) => match plan_walk(
                    content,
                    plan,
                    page_size,
                    commit,
                    w.claimed,
                    (left - 1) as nat,
                ) {
                    Err(e) => Err(e),
                    Ok(rest) => Ok(w.writes + rest),
                },
            },
        }
    }
}

/// `img` after the pages `ws` have been written into it.
pub open spec fn written(img: Seq<u8>, ws: Seq<PageView>, page_size: u32) -> Seq<u8>
    decreases ws.len(),
{
    if ws.len() == 0 {
        img
    } else {
        written(
            overwrite(img, page_start(ws.first().0, page_size), ws.first().1),
            ws.drop_first(),
            page_size,
        )
    }
}

/// The pages that a run is still to write.
pub open spec fn to_write(v: RunView, content: spec_fn(FileKey) -> Seq<u8>) -> Result<
    Seq<PageView>,
    SyncError,
> {
    match v.stage {
        ApplyStage::Pages => match file_walk(
            v.bytes,
            v.index,
            v.page_size,
            v.commit,
            v.claimed,
            v.cursor,
        ) {
            Err(e) => Err(e),
            Ok(w) => match plan_walk(
                content,
                v.plan,
                v.page_size,
                v.commit,
                w.claimed,
                (v.left - 1) as nat,
            ) {
                Err(e) => Err(e),
                Ok(rest) => Ok(w.writes + rest),
            },
        },
        ApplyStage::Seal => Ok(Seq::empty()),
        ApplyStage::Sealed => Ok(Seq::empty()),
        _ => plan_walk(content, v.plan, v.page_size, v.commit, v.claimed, v.left),
    }
}

/// The image that a run writes its pages into, where the file held `file`
/// before.
pub open spec fn base_image(file: Seq<u8>, v: RunView) -> Seq<u8> {
    match v.floor {
        None => zeros(image_len(v.commit, v.page_size)),
        Some(floor) => resized(
            resized(file, image_len(floor, v.page_size)),
            image_len(v.commit, v.page_size),
        ),
    }
}

/// The image that a run leaves, where the file held `file` before.
pub open spec fn run_image(
    file: Seq<u8>,
    v: RunView,
    content: spec_fn(FileKey) -> Seq<u8>,
) -> Result<Seq<u8>, SyncError> {
    match to_write(v, content) {
        Err(e) => Err(e),
        Ok(ws) => Ok(written(base_image(file, v), ws, v.page_size)),
    }
}

/// The marker of a run in flight.
pub open spec fn in_flight(v: RunView) -> Option<Marker> {
    Some(Marker::Applying { from: v.from, to: v.to })
}

/// The marker of a run that is over.
pub open spec fn landed(v: RunView) -> Option<Marker> {
    Some(
        Marker::Clean {
            txid: v.to,
            page_size: v.page_size,
            commit: v.commit,
            file_len: run_len(v),
        },
    )
}

/// The same run, at another moment.
pub open spec fn same_run(v0: RunView, v: RunView) -> bool {
    &&& v.plan == v0.plan
    &&& v.from == v0.from
    &&& v.to == v0.to
    &&& v.page_size == v0.page_size
    &&& v.commit == v0.commit
    &&& v.floor == v0.floor
}

/// The run that began as `v0` on the disk `start` has come to `v`, and the disk
/// to `d`.
pub open spec fn in_step(
    v0: RunView,
    v: RunView,
    start: Disk,
    d: Disk,
    content: spec_fn(FileKey) -> Seq<u8>,
) -> bool {
    &&& v0.stage == ApplyStage::Begin
    &&& same_run(v0, v)
    &&& match v.stage {
        ApplyStage::Begin => v == v0 && d == start,
        ApplyStage::Marked | ApplyStage::Cut => {
            &&& d.marker == in_flight(v0)
            &&& d.file == start.file
            &&& to_write(v, content) == to_write(v0, content)
        },
        ApplyStage::Grow => {
            &&& d.marker == in_flight(v0)
            &&& resized(d.file, run_len(v0) as nat) == base_image(start.file, v0)
            &&& to_write(v, content) == to_write(v0, content)
        },
        ApplyStage::Next | ApplyStage::Await | ApplyStage::Pages => {
            &&& d.marker == in_flight(v0)
            &&& d.file.len() == run_len(v0)
            &&& match to_write(v, content) {
                Err(e) => run_image(start.file, v0, content) == Err::<Seq<u8>, SyncError>(e),
                Ok(ws) => run_image(start.file, v0, content) == Ok::<Seq<u8>, SyncError>(
                    written(d.file, ws, v0.page_size),
                ),
            }
        },
        ApplyStage::Seal => {
            &&& d.marker == in_flight(v0)
            &&& d.synced
            &&& d.file.len() == run_len(v0)
            &&& run_image(start.file, v0, content) == Ok::<Seq<u8>, SyncError>(d.file)
        },
        ApplyStage::Sealed => {
            &&& d.marker == landed(v0)
            &&& d.synced
            &&& d.file.len() == run_len(v0)
            &&& run_image(start.file, v0, content) == Ok::<Seq<u8>, SyncError>(d.file)
        },
        ApplyStage::Failed => {
            &&& d.marker == in_flight(v0)
            &&& run_image(start.file, v0, content) is Err
        },
    }
}

/// Each step of a run keeps the disk in step with it. Where a step fails, so does
/// the run as a whole, whatever the order of its steps.
pub proof fn lemma_step_stays_in_step(
    v0: RunView,
    v: RunView,
    start: Disk,
    d: Disk,
    content: spec_fn(FileKey) -> Seq<u8>,
)
    requires
        run_wf(v),
        v.stage != ApplyStage::Await,
        v.stage != ApplyStage::Failed,
        in_step(v0, v, start, d, content),
    ensures
        match run_step(v).1 {
            Ok(a) => in_step(v0, run_step(v).0, start, performed(d, a), content),
            Err(e) => {
                &&& in_step(v0, run_step(v).0, start, d, content)
                &&& run_image(start.file, v0, content) == Err::<Seq<u8>, SyncError>(e)
            },
        },
{
    lemma_offset_fits(v.commit, v.page_size);
    if v.floor is Some {
        lemma_offset_fits(v.floor->0, v.page_size);
    }
    match v.stage {
        ApplyStage::Pages => {
            lemma_page_stays_in_step(v0, v, start, d, content);
        },
        ApplyStage::Marked => {
            if v.floor is None {
                assert(resized(Seq::<u8>::empty(), run_len(v0) as nat) =~= base_image(
                    start.file,
                    v0,
                ));
            }
        },
        _ => {},
    }
}

proof fn lemma_page_stays_in_step(
    v0: RunView,
    v: RunView,
    start: Disk,
    d: Disk,
    content: spec_fn(FileKey) -> Seq<u8>,
)
    requires
        run_wf(v),
        v.stage == ApplyStage::Pages,
        in_step(v0, v, start, d, content),
    ensures
        match next_page(v).1 {
            Ok(a) => in_step(v0, next_page(v).0, start, performed(d, a), content),
            Err(e) => {
                &&& in_step(v0, next_page(v).0, start, d, content)
                &&& run_image(start.file, v0, content) == Err::<Seq<u8>, SyncError>(e)
            },
        },
    decreases v.index.len() - v.cursor,
{
    if v.cursor >= v.index.len() {
        let rest = plan_walk(
            content,
            v.plan,
            v.page_size,
            v.commit,
            v.claimed,
            (v.left - 1) as nat,
        );
        if rest is Ok {
            assert(Seq::<PageView>::empty() + rest->Ok_0 =~= rest->Ok_0);
        }
    } else {
        match indexed_page_of(v.bytes, v.index[v.cursor as int], v.page_size as nat) {
            Err(e) => {},
            Ok((ph, data)) => {
                if takes(ph.pgno, v.commit, v.claimed) {
                    lemma_indexed_page_len(v.bytes, v.index[v.cursor as int], v.page_size as nat);
                    lemma_offset_fits(v.commit, v.page_size);
                    lemma_page_bounds(ph.pgno, v.commit, v.page_size);
                    let next = RunView {
                        cursor: v.cursor + 1,
                        claimed: v.claimed.insert(ph.pgno),
                        ..v
                    };
                    if let Ok(ws) = to_write(v, content) {
                        let after = to_write(next, content)->Ok_0;
                        let w = file_walk(
                            next.bytes,
                            next.index,
                            next.page_size,
                            next.commit,
                            next.claimed,
                            next.cursor,
                        )->Ok_0;
                        let rest = plan_walk(
                            content,
                            v.plan,
                            v.page_size,
                            v.commit,
                            w.claimed,
                            (v.left - 1) as nat,
                        )->Ok_0;
                        assert(ws == (seq![(ph.pgno, data)] + w.writes) + rest);
                        assert(ws.drop_first() =~= after);
                    }
                } else {
                    lemma_page_stays_in_step(
                        v0,
                        RunView { cursor: v.cursor + 1, ..v },
                        start,
                        d,
                        content,
                    );
                }
            },
        }
    }
}

/// So does handing the run the bytes of the file that it asked for.
pub proof fn lemma_supply_stays_in_step(
    v0: RunView,
    v: RunView,
    start: Disk,
    d: Disk,
    content: spec_fn(FileKey) -> Seq<u8>,
)
    requires
        run_wf(v),
        v.stage == ApplyStage::Await,
        in_step(v0, v, start, d, content),
    ensures
        in_step(v0, supplied(v, content(v.plan[v.left - 1])).0, start, d, content),
        supplied(v, content(v.plan[v.left - 1])).1 matches Err(e) ==> run_image(
            start.file,
            v0,
            content,
        ) == Err::<Seq<u8>, SyncError>(e),
{
}

/// A torn file is never taken for a sound one. At every moment of a run the marker
/// says that an apply is in flight, or the disk is as it was before the run, or
/// the marker says clean and the file is durable, is the image of the run, and has
/// the length that the marker states.
pub proof fn lemma_marker_tells_the_truth(
    v0: RunView,
    v: RunView,
    start: Disk,
    d: Disk,
    content: spec_fn(FileKey) -> Seq<u8>,
)
    requires
        in_step(v0, v, start, d, content),
    ensures
        ({
            ||| d.marker == in_flight(v0)
            ||| d == start
            ||| {
                &&& d.marker == landed(v0)
                &&& d.synced
                &&& run_image(start.file, v0, content) == Ok::<Seq<u8>, SyncError>(d.file)
                &&& d.file.len() == run_len(v0)
            }
        }),
{
}

/// A walk writes no page twice, none that was claimed before it, and none beyond
/// the final size.
pub proof fn lemma_file_walk_once(
    b: Seq<u8>,
    es: Seq<PageIndexElem>,
    page_size: u32,
    commit: u32,
    claimed: Set<u32>,
    cursor: nat,
)
    ensures
        file_walk(b, es, page_size, commit, claimed, cursor) matches Ok(w) ==> {
            &&& forall|i: int|
                0 <= i < w.writes.len() ==> takes((#[trigger] w.writes[i]).0, commit, claimed)
                    && w.writes[i].1.len() == page_size && w.claimed.contains(w.writes[i].0)
            &&& forall|i: int, j: int|
                0 <= i < j < w.writes.len() ==> (#[trigger] w.writes[i]).0 != (
                #[trigger] w.writes[j]).0
            &&& claimed.subset_of(w.claimed)
        },
    decreases es.len() - cursor,
{
    if cursor < es.len() {
        if let Ok((ph, d)) = indexed_page_of(b, es[cursor as int], page_size as nat) {
            lemma_indexed_page_len(b, es[cursor as int], page_size as nat);
            if takes(ph.pgno, commit, claimed) {
                lemma_file_walk_once(
                    b,
                    es,
                    page_size,
                    commit,
                    claimed.insert(ph.pgno),
                    cursor + 1,
                );
            } else {
                lemma_file_walk_once(b, es, page_size, commit, claimed, cursor + 1);
            }
        }
    }
}

/// No page is written twice over a whole plan, none that was claimed before, and
/// none beyond the final size.
pub proof fn lemma_pages_written_once(
    content: spec_fn(FileKey) -> Seq<u8>,
    plan: Seq<FileKey>,
    page_size: u32,
    commit: u32,
    claimed: Set<u32>,
    left: nat,
)
    ensures
        plan_walk(content, plan, page_size, commit, claimed, left) matches Ok(ws) ==> {
            &&& forall|i: int|
                0 <= i < ws.len() ==> takes((#[trigger] ws[i]).0, commit, claimed)
                    && ws[i].1.len() == page_size
            &&& forall|i: int, j: int|
                0 <= i < j < ws.len() ==> (#[trigger] ws[i]).0 != (#[trigger] ws[j]).0
        },
    decreases left,
{
    if left > 0 {
        let b = content(plan[left - 1]);
        if let Ok(es) = page_index_of(b) {
            lemma_file_walk_once(b, es, page_size, commit, claimed, 0);
            if let Ok(w) = file_walk(b, es, page_size, commit, claimed, 0) {
                lemma_pages_written_once(
                    content,
                    plan,
                    page_size,
                    commit,
                    w.claimed,
                    (left - 1) as nat,
                );
            }
        }
    }
}

/// A full restore begins from nothing and leads to the end of its plan, in the size that the
/// newest file states, and leaves alone only the lock page. It cannot begin without a file,
/// or without a header.
pub proof fn lemma_full_restore_begins(
    plan: Vec<FileKey>,
    head: &[u8],
    header: Result<Header, LtxError>,
    r: Result<ApplyRun<DenseSet>, SyncError>,
)
    requires
        call_ensures(Header::decode, (head,), header),
        call_ensures(ApplyRun::<DenseSet>::full, (plan, head), r),
    ensures
        plan@.len() == 0 ==> (r matches Err(e) && e is NoSnapshot),
        plan@.len() > 0 ==> (header matches Err(x) ==> (r matches Err(e) && e == SyncError::Ltx(
            x,
        ))),
        plan@.len() > 0 && header is Ok && header->Ok_0.commit < usize::MAX ==> r is Ok,
        r matches Ok(run) ==> {
            let v = run@;
            &&& run.wf()
            &&& v.plan == plan@
            &&& v.from == 0
            &&& v.to == plan@[plan@.len() - 1].2
            &&& header matches Ok(h) && (v.page_size == h.page_size && v.commit == h.commit)
            &&& v.floor is None
            &&& v.stage == ApplyStage::Begin
            &&& v.left == plan@.len()
            &&& forall|p: u32|
                1 <= p <= v.commit ==> (#[trigger] v.claimed.contains(p) <==> (p - 1) * v.page_size
                    <= 0x4000_0000 < p * v.page_size)
        },
{
    if let Ok(run) = r {
        lemma_only_the_lock_page(run@.page_size);
    }
}

proof fn lemma_only_the_lock_page(page_size: u32)
    requires
        valid_page_size(page_size),
    ensures
        forall|p: u32|
            p == lock_page(page_size) <==> #[trigger] ((p - 1) * page_size) <= 0x4000_0000 < p
                * page_size,
{
    let ps = page_size as int;
    let q = 0x4000_0000int / ps;
    vstd::arithmetic::div_mod::lemma_fundamental_div_mod(0x4000_0000, ps);
    assert(0 <= q <= 0x4000_0000) by (nonlinear_arith)
        requires
            q == 0x4000_0000int / ps,
            ps >= 1,
    ;
    assert(q * ps == ps * q) by (nonlinear_arith);
    assert forall|p: u32|
        p == lock_page(page_size) <==> #[trigger] ((p - 1) * page_size) <= 0x4000_0000 < p
            * page_size by {
        assert((p - 1) * ps + ps == p * ps) by (nonlinear_arith);
        if p - 1 < q {
            assert(p * ps <= q * ps) by (nonlinear_arith)
                requires
                    p <= q,
                    ps > 0,
            ;
        } else if p - 1 > q {
            assert((p - 1) * ps >= q * ps + ps) by (nonlinear_arith)
                requires
                    p - 1 >= q + 1,
                    ps > 0,
            ;
        }
    }
}

/// A delta begins from the TXID that the file is at and leads to the end of its plan, in the
/// shape that it was given, and leaves alone only the lock page.
pub proof fn lemma_delta_begins(
    plan: Vec<FileKey>,
    from: u64,
    shape: DeltaShape,
    run: ApplyRun<SparseSet>,
)
    requires
        plan@.len() > 0,
        valid_page_size(shape.page_size),
        call_ensures(ApplyRun::<SparseSet>::delta, (plan, from, shape), run),
    ensures
        ({
            let v = run@;
            &&& run.wf()
            &&& v.plan == plan@
            &&& v.from == from
            &&& v.to == plan@[plan@.len() - 1].2
            &&& v.page_size == shape.page_size
            &&& v.commit == shape.final_commit
            &&& v.floor == Some(shape.min_commit)
            &&& v.stage == ApplyStage::Begin
            &&& v.left == plan@.len()
            &&& forall|p: u32|
                #[trigger] v.claimed.contains(p) <==> (p - 1) * v.page_size <= 0x4000_0000 < p
                    * v.page_size
        }),
{
    lemma_only_the_lock_page(shape.page_size);
}

/// Once a run is over, the marker beside the file states the TXID that the run led to, the
/// page size, the number of pages, and the length of the file; until then it states where
/// the run comes from and where it leads.
pub proof fn lemma_marker_states_the_end(
    v0: RunView,
    v: RunView,
    start: Disk,
    d: Disk,
    content: spec_fn(FileKey) -> Seq<u8>,
)
    requires
        valid_page_size(v0.page_size),
        in_step(v0, v, start, d, content),
    ensures
        v.stage == ApplyStage::Sealed ==> (d.marker matches Some(
            Marker::Clean { txid, page_size, commit, file_len },
        ) && (txid == v0.to && page_size == v0.page_size && commit == v0.commit && file_len
            == d.file.len() && file_len == v0.commit * v0.page_size && d.synced)),
        v.stage != ApplyStage::Sealed && v.stage != ApplyStage::Begin ==> (d.marker matches Some(
            Marker::Applying { from, to },
        ) && (from == v0.from && to == v0.to)),
{
    lemma_offset_fits(v0.commit, v0.page_size);
}

/// A run that is over says so, with the TXID that it led to, and does nothing more.
pub proof fn lemma_run_ends(v: RunView)
    requires
        v.stage == ApplyStage::Sealed,
    ensures
        run_step(v).0 == v,
        run_step(v).1 matches Ok(a) && a == ActionView::Done(v.to),
{
}

} // verus!
