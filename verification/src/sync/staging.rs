//! What a previous run left in the staging directory.

use crate::storage::{
    ends_with, lemma_name_round_trip, ltx_name, name_range, parse_ltx_filename, suffix,
};
use crate::text::{
    chars_of, hex_number, hex_padded, lemma_hex_fixed_len, lemma_hex_padded_reads_back, parse_hex,
};
use vstd::prelude::*;

verus! {

/// A file found under the staging root: the name of its level directory, its own
/// name, and its size.
#[derive(Debug)]
pub struct StagedEntry {
    pub dir: String,
    pub name: String,
    pub size: u64,
}

/// What to do with a file found under the staging root.
#[derive(Clone, Copy, Debug, PartialEq, Eq)]
pub enum StagedKind {
    /// Not ours.
    Ignore,
    /// An incomplete write, to be removed.
    Debris,
    /// A complete file, to be uploaded.
    Complete { level: u32, min: u64, max: u64 },
}

/// The suffix of a file whose write did not complete.
pub open spec fn debris_suffix() -> Seq<char> {
    seq!['.', 'l', 't', 'x', '.', 't', 'm', 'p']
}

/// What a file found under the staging root is.
pub open spec fn kind_of(e: StagedEntry) -> StagedKind {
    match hex_number(e.dir@, u32::MAX as nat) {
        None => StagedKind::Ignore,
        Some(level) => if ends_with(e.name@, debris_suffix()) {
            StagedKind::Debris
        } else {
            match name_range(e.name@) {
                None => StagedKind::Ignore,
                Some((min, max)) => StagedKind::Complete { level: level as u32, min, max },
            }
        },
    }
}

fn ends_in_tmp(cs: &Vec<char>) -> (r: bool)
    ensures
        r == ends_with(cs@, debris_suffix()),
{
    let n: usize = cs.len();
    if n < 8 {
        return false;
    }
    let ghost tail = cs@.skip(n - 8);
    let r = cs[n - 8] == '.' && cs[n - 7] == 'l' && cs[n - 6] == 't' && cs[n - 5] == 'x' && cs[n
        - 4] == '.' && cs[n - 3] == 't' && cs[n - 2] == 'm' && cs[n - 1] == 'p';
    proof {
        let d = debris_suffix();
        if r {
            assert(tail =~= d);
        } else if tail == d {
            assert(d[0] == '.' && d[1] == 'l' && d[2] == 't' && d[3] == 'x' && d[4] == '.' && d[5]
                == 't' && d[6] == 'm' && d[7] == 'p');
            assert(tail[0] == cs@[n - 8] && tail[1] == cs@[n - 7] && tail[2] == cs@[n - 6]
                && tail[3] == cs@[n - 5] && tail[4] == cs@[n - 4] && tail[5] == cs@[n - 3]
                && tail[6] == cs@[n - 2] && tail[7] == cs@[n - 1]);
        }
    }
    r
}

/// What a file found under the staging root is.
pub fn classify(e: &StagedEntry) -> (k: StagedKind)
    ensures
        k == kind_of(*e),
{
    let dir = chars_of(e.dir.as_str());
    let level: u32 = match parse_hex(&dir, u32::MAX as u64) {
        Some(v) => v as u32,
        None => return StagedKind::Ignore,
    };
    let name = chars_of(e.name.as_str());
    if ends_in_tmp(&name) {
        return StagedKind::Debris;
    }
    match parse_ltx_filename(e.name.as_str()) {
        None => StagedKind::Ignore,
        Some((min, max)) => StagedKind::Complete { level, min, max },
    }
}

/// A file to upload again: where it belongs, and its index among the entries.
#[derive(Clone, Copy, Debug, PartialEq, Eq, Structural)]
pub struct Pending {
    pub level: u32,
    pub min: u64,
    pub max: u64,
    pub entry: usize,
}

/// What recovery does: which entries to remove, and which to upload, in order.
#[derive(Debug)]
pub struct Recovery {
    pub debris: Vec<usize>,
    pub uploads: Vec<Pending>,
}

/// `a` is uploaded no later than `b`: by TXID range, then by level.
pub open spec fn upload_le(a: Pending, b: Pending) -> bool {
    a.min < b.min || (a.min == b.min && (a.max < b.max || (a.max == b.max && a.level <= b.level)))
}

/// How many of the uploads come no later than `p`.
pub open spec fn upload_slot(ps: Seq<Pending>, p: Pending) -> nat
    decreases ps.len(),
{
    if ps.len() == 0 || upload_le(ps.last(), p) {
        ps.len()
    } else {
        upload_slot(ps.drop_last(), p)
    }
}

/// The uploads among the first `n` entries, ascending by TXID range and level.
pub open spec fn uploads_of(es: Seq<StagedEntry>, n: nat) -> Seq<Pending>
    decreases n,
{
    if n == 0 {
        Seq::empty()
    } else {
        let before = uploads_of(es, (n - 1) as nat);
        match kind_of(es[n - 1]) {
            StagedKind::Complete { level, min, max } => {
                let p = Pending { level, min, max, entry: (n - 1) as usize };
                before.insert(upload_slot(before, p) as int, p)
            },
            _ => before,
        }
    }
}

/// The debris among the first `n` entries.
pub open spec fn debris_of(es: Seq<StagedEntry>, n: nat) -> Seq<usize>
    decreases n,
{
    if n == 0 {
        Seq::empty()
    } else if kind_of(es[n - 1]) is Debris {
        debris_of(es, (n - 1) as nat).push((n - 1) as usize)
    } else {
        debris_of(es, (n - 1) as nat)
    }
}

/// The uploads are in order.
pub open spec fn in_upload_order(ps: Seq<Pending>) -> bool {
    forall|i: int, j: int| 0 <= i <= j < ps.len() ==> upload_le(#[trigger] ps[i], #[trigger] ps[j])
}

proof fn lemma_upload_slot(ps: Seq<Pending>, p: Pending)
    requires
        in_upload_order(ps),
    ensures
        upload_slot(ps, p) <= ps.len(),
        in_upload_order(ps.insert(upload_slot(ps, p) as int, p)),
    decreases ps.len(),
{
    let n = upload_slot(ps, p) as int;
    if ps.len() == 0 {
    } else if upload_le(ps.last(), p) {
        assert(ps.insert(n, p) =~= ps.push(p));
    } else {
        let front = ps.drop_last();
        assert forall|i: int, j: int| 0 <= i <= j < front.len() implies upload_le(
            #[trigger] front[i],
            #[trigger] front[j],
        ) by {
            assert(upload_le(ps[i], ps[j]));
        }
        lemma_upload_slot(front, p);
        let out = ps.insert(n, p);
        let fo = front.insert(n, p);
        assert(out =~= fo.push(ps.last()));
        assert forall|i: int, j: int| 0 <= i <= j < out.len() implies upload_le(
            #[trigger] out[i],
            #[trigger] out[j],
        ) by {
            if j < fo.len() {
                assert(out[i] == fo[i] && out[j] == fo[j]);
            } else if i < fo.len() {
                assert(out[i] == fo[i]);
                if i < n {
                    assert(fo[i] == ps[i]);
                } else if i > n {
                    assert(fo[i] == ps[i - 1]);
                }
            }
        }
    }
}

/// Recovered files are uploaded in ascending TXID order.
pub proof fn lemma_uploads_ascend(es: Seq<StagedEntry>, n: nat)
    ensures
        in_upload_order(uploads_of(es, n)),
    decreases n,
{
    if n > 0 {
        lemma_uploads_ascend(es, (n - 1) as nat);
        if let StagedKind::Complete { level, min, max } = kind_of(es[n - 1]) {
            lemma_upload_slot(
                uploads_of(es, (n - 1) as nat),
                Pending { level, min, max, entry: (n - 1) as usize },
            );
        }
    }
}

/// Sorts out what a previous run left in the staging directory: incomplete
/// writes are removed, complete files are uploaded ascending by TXID.
pub fn plan_recovery(es: &[StagedEntry]) -> (r: Recovery)
    ensures
        r.debris@ == debris_of(es@, es@.len()),
        r.uploads@ == uploads_of(es@, es@.len()),
        in_upload_order(r.uploads@),
{
    let mut debris: Vec<usize> = Vec::new();
    let mut uploads: Vec<Pending> = Vec::new();
    let mut i: usize = 0;
    while i < es.len()
        invariant
            i <= es@.len(),
            debris@ == debris_of(es@, i as nat),
            uploads@ == uploads_of(es@, i as nat),
        decreases es@.len() - i,
    {
        match classify(&es[i]) {
            StagedKind::Ignore => {},
            StagedKind::Debris => {
                debris.push(i);
            },
            StagedKind::Complete { level, min, max } => {
                let p = Pending { level, min, max, entry: i };
                let mut k: usize = uploads.len();
                assert(uploads@.take(k as int) =~= uploads@);
                while k > 0 && !(uploads[k - 1].min < min || (uploads[k - 1].min == min && (uploads[k
                    - 1].max < max || (uploads[k - 1].max == max && uploads[k - 1].level <= level))))
                    invariant
                        k <= uploads@.len(),
                        p == (Pending { level, min, max, entry: i }),
                        upload_slot(uploads@, p) == upload_slot(uploads@.take(k as int), p),
                    decreases k,
                {
                    assert(uploads@.take(k as int).drop_last() =~= uploads@.take(k - 1));
                    k -= 1;
                }
                uploads.insert(k, p);
            },
        }
        i += 1;
    }
    proof {
        lemma_uploads_ascend(es@, es@.len());
    }
    Recovery { debris, uploads }
}

/// The total size of the complete LTX files among the first `n` entries.
pub open spec fn backlog_of(es: Seq<StagedEntry>, n: nat) -> nat
    decreases n,
{
    if n == 0 {
        0
    } else {
        backlog_of(es, (n - 1) as nat) + if ends_with(es[n - 1].name@, suffix()) {
            es[n - 1].size as nat
        } else {
            0
        }
    }
}

/// Bytes of LTX files that wait in the staging directory for upload; the
/// greatest number there is where the sum exceeds it.
pub fn staged_backlog_bytes(es: &[StagedEntry]) -> (total: u64)
    ensures
        total == (if backlog_of(es@, es@.len()) > u64::MAX {
            u64::MAX as nat
        } else {
            backlog_of(es@, es@.len())
        }),
{
    let mut total: u64 = 0;
    let mut i: usize = 0;
    while i < es.len()
        invariant
            i <= es@.len(),
            total == (if backlog_of(es@, i as nat) > u64::MAX {
                u64::MAX as nat
            } else {
                backlog_of(es@, i as nat)
            }),
        decreases es@.len() - i,
    {
        let cs = chars_of(es[i].name.as_str());
        let n: usize = cs.len();
        let counts = n >= 4 && cs[n - 4] == '.' && cs[n - 3] == 'l' && cs[n - 2] == 't' && cs[n - 1]
            == 'x';
        proof {
            let name = es@[i as int].name@;
            let d = suffix();
            if n >= 4 {
                let tail = name.skip(n - 4);
                assert(tail[0] == cs@[n - 4] && tail[1] == cs@[n - 3] && tail[2] == cs@[n - 2]
                    && tail[3] == cs@[n - 1]);
                assert(d[0] == '.' && d[1] == 'l' && d[2] == 't' && d[3] == 'x');
                if counts {
                    assert(tail =~= d);
                }
            }
        }
        if counts {
            total = total.saturating_add(es[i].size);
        }
        i += 1;
    }
    total
}

/// The entry at `i` is uploaded as what it is.
pub open spec fn uploaded(ps: Seq<Pending>, i: int, level: u32, min: u64, max: u64) -> bool {
    exists|k: int|
        0 <= k < ps.len() && #[trigger] ps[k] == (Pending { level, min, max, entry: i as usize })
}

/// The pending upload is of an entry before `n`, and is what that entry is.
spec fn is_upload_of(es: Seq<StagedEntry>, n: nat, p: Pending) -> bool {
    &&& p.entry < n
    &&& kind_of(es[p.entry as int]) == (StagedKind::Complete {
        level: p.level,
        min: p.min,
        max: p.max,
    })
}

proof fn lemma_uploads_are_entries(es: Seq<StagedEntry>, n: nat, k: int)
    requires
        n <= es.len() <= usize::MAX,
        0 <= k < uploads_of(es, n).len(),
    ensures
        is_upload_of(es, n, uploads_of(es, n)[k]),
    decreases n,
{
    if n > 0 {
        let m = (n - 1) as nat;
        lemma_uploads_ascend(es, m);
        let before = uploads_of(es, m);
        let all = uploads_of(es, n);
        if let StagedKind::Complete { level, min, max } = kind_of(es[n - 1]) {
            let p = Pending { level, min, max, entry: (n - 1) as usize };
            lemma_upload_slot(before, p);
            let at = upload_slot(before, p) as int;
            assert(all == before.insert(at, p));
            if k < at {
                assert(all[k] == before[k]);
                lemma_uploads_are_entries(es, m, k);
            } else if k > at {
                assert(all[k] == before[k - 1]);
                lemma_uploads_are_entries(es, m, k - 1);
            }
        } else {
            lemma_uploads_are_entries(es, m, k);
        }
    }
}

proof fn lemma_uploads_differ(es: Seq<StagedEntry>, n: nat, j: int, k: int)
    requires
        n <= es.len() <= usize::MAX,
        0 <= j < k < uploads_of(es, n).len(),
    ensures
        uploads_of(es, n)[j].entry != uploads_of(es, n)[k].entry,
    decreases n,
{
    if n > 0 {
        let m = (n - 1) as nat;
        lemma_uploads_ascend(es, m);
        let before = uploads_of(es, m);
        let all = uploads_of(es, n);
        if let StagedKind::Complete { level, min, max } = kind_of(es[n - 1]) {
            let p = Pending { level, min, max, entry: (n - 1) as usize };
            lemma_upload_slot(before, p);
            let at = upload_slot(before, p) as int;
            assert(all == before.insert(at, p));
            let x = if j < at {
                j
            } else {
                j - 1
            };
            let y = if k < at {
                k
            } else {
                k - 1
            };
            if j == at {
                assert(all[k] == before[y]);
                lemma_uploads_are_entries(es, m, y);
            } else if k == at {
                assert(all[j] == before[x]);
                lemma_uploads_are_entries(es, m, x);
            } else {
                assert(all[j] == before[x]);
                assert(all[k] == before[y]);
                lemma_uploads_differ(es, m, x, y);
            }
        } else {
            lemma_uploads_differ(es, m, j, k);
        }
    }
}

proof fn lemma_entries_are_uploaded(es: Seq<StagedEntry>, n: nat, i: int)
    requires
        n <= es.len() <= usize::MAX,
        0 <= i < n,
        kind_of(es[i]) is Complete,
    ensures
        kind_of(es[i]) matches StagedKind::Complete { level, min, max } && uploaded(
            uploads_of(es, n),
            i,
            level,
            min,
            max,
        ),
    decreases n,
{
    let m = (n - 1) as nat;
    let before = uploads_of(es, m);
    let all = uploads_of(es, n);
    lemma_uploads_ascend(es, m);
    if i < m {
        lemma_entries_are_uploaded(es, m, i);
        if let StagedKind::Complete { level, min, max } = kind_of(es[i]) {
            let q = Pending { level, min, max, entry: i as usize };
            let k = choose|k: int| 0 <= k < before.len() && #[trigger] before[k] == q;
            assert(before[k] == q);
            if let StagedKind::Complete { level, min, max } = kind_of(es[n - 1]) {
                let p = Pending { level, min, max, entry: (n - 1) as usize };
                lemma_upload_slot(before, p);
                let at = upload_slot(before, p) as int;
                assert(all == before.insert(at, p));
                if k < at {
                    assert(all[k] == q);
                } else {
                    assert(all[k + 1] == q);
                }
            } else {
                assert(all[k] == q);
            }
        }
    } else if let StagedKind::Complete { level, min, max } = kind_of(es[i]) {
        let p = Pending { level, min, max, entry: i as usize };
        lemma_upload_slot(before, p);
        assert(all[upload_slot(before, p) as int] == p);
    }
}

proof fn lemma_uploads(es: Seq<StagedEntry>, n: nat)
    requires
        n <= es.len() <= usize::MAX,
    ensures
        forall|k: int|
            0 <= k < uploads_of(es, n).len() ==> is_upload_of(
                es,
                n,
                #[trigger] uploads_of(es, n)[k],
            ),
        forall|j: int, k: int|
            0 <= j < k < uploads_of(es, n).len() ==> (#[trigger] uploads_of(es, n)[j]).entry != (
            #[trigger] uploads_of(es, n)[k]).entry,
        forall|i: int|
            0 <= i < n ==> match #[trigger] kind_of(es[i]) {
                StagedKind::Complete { level, min, max } => uploaded(
                    uploads_of(es, n),
                    i,
                    level,
                    min,
                    max,
                ),
                _ => true,
            },
{
    let all = uploads_of(es, n);
    assert forall|k: int| 0 <= k < all.len() implies is_upload_of(es, n, #[trigger] all[k]) by {
        lemma_uploads_are_entries(es, n, k);
    }
    assert forall|j: int, k: int| 0 <= j < k < all.len() implies (#[trigger] all[j]).entry != (
    #[trigger] all[k]).entry by {
        lemma_uploads_differ(es, n, j, k);
    }
    assert forall|i: int| 0 <= i < n implies match #[trigger] kind_of(es[i]) {
        StagedKind::Complete { level, min, max } => uploaded(all, i, level, min, max),
        _ => true,
    } by {
        if kind_of(es[i]) is Complete {
            lemma_entries_are_uploaded(es, n, i);
        }
    }
}

proof fn lemma_debris(es: Seq<StagedEntry>, n: nat)
    requires
        n <= es.len() <= usize::MAX,
    ensures
        forall|k: int|
            0 <= k < debris_of(es, n).len() ==> (#[trigger] debris_of(es, n)[k]) < n && kind_of(
                es[debris_of(es, n)[k] as int],
            ) is Debris,
        forall|j: int, k: int|
            0 <= j < k < debris_of(es, n).len() ==> #[trigger] debris_of(es, n)[j]
                < #[trigger] debris_of(es, n)[k],
        forall|i: int|
            0 <= i < n && (#[trigger] kind_of(es[i])) is Debris ==> debris_of(es, n).contains(
                i as usize,
            ),
    decreases n,
{
    if n > 0 {
        let m = (n - 1) as nat;
        lemma_debris(es, m);
        let before = debris_of(es, m);
        let all = debris_of(es, n);
        assert forall|i: int| 0 <= i < n && (#[trigger] kind_of(es[i])) is Debris implies all.contains(
            i as usize,
        ) by {
            if i < m {
                let k = choose|k: int| 0 <= k < before.len() && before[k] == i as usize;
                assert(all[k] == i as usize);
            } else {
                assert(all[before.len() as int] == i as usize);
            }
        }
    }
}

/// Nothing that was staged is lost: of what a previous run left, exactly the complete
/// files are uploaded, each once and as what its name says, ascending by TXID range and
/// level, and exactly the incomplete writes are removed, each once.
pub proof fn lemma_staged_files_are_recovered(es: &[StagedEntry], r: Recovery, i: int)
    requires
        0 <= i < es@.len() <= usize::MAX,
        call_ensures(plan_recovery, (es,), r),
    ensures
        match kind_of(es@[i]) {
            StagedKind::Complete { level, min, max } => uploaded(r.uploads@, i, level, min, max),
            _ => forall|k: int| 0 <= k < r.uploads@.len() ==> (#[trigger] r.uploads@[k]).entry != i,
        },
        forall|k: int|
            0 <= k < r.uploads@.len() ==> (#[trigger] r.uploads@[k]).entry < es@.len(),
        forall|j: int, k: int|
            0 <= j < k < r.uploads@.len() ==> {
                let (a, b) = (#[trigger] r.uploads@[j], #[trigger] r.uploads@[k]);
                &&& a.entry != b.entry
                &&& a.min <= b.min
                &&& a.min == b.min ==> a.max <= b.max
                &&& a.min == b.min && a.max == b.max ==> a.level <= b.level
            },
        r.debris@.contains(i as usize) <==> kind_of(es@[i]) is Debris,
        forall|j: int, k: int|
            0 <= j < k < r.debris@.len() ==> #[trigger] r.debris@[j] < #[trigger] r.debris@[k],
{
    lemma_uploads(es@, es@.len());
    lemma_debris(es@, es@.len());
    assert(kind_of(es@[i]) == kind_of(es@[i]));
    if r.debris@.contains(i as usize) {
        let k = choose|k: int| 0 <= k < r.debris@.len() && r.debris@[k] == i as usize;
        assert(kind_of(es@[r.debris@[k] as int]) is Debris);
    }
}

/// A file that was staged for a level and a TXID range is recognised by its directory and
/// its name, and the same name with the suffix of an incomplete write as such.
pub proof fn lemma_staged_names_are_recognised(
    e: StagedEntry,
    level: u32,
    min: u64,
    max: u64,
    k: StagedKind,
)
    requires
        e.dir@ == hex_padded(level as nat, 4),
        call_ensures(classify, (&e,), k),
    ensures
        e.name@ == ltx_name(min, max) ==> k == (StagedKind::Complete { level, min, max }),
        e.name@ == ltx_name(min, max) + seq!['.', 't', 'm', 'p'] ==> k is Debris,
{
    lemma_hex_padded_reads_back(level as nat, 4);
    lemma_name_round_trip(min, max);
    lemma_hex_fixed_len(min as nat, 16);
    lemma_hex_fixed_len(max as nat, 16);
    let name = ltx_name(min, max);
    let x = suffix();
    assert(name.skip(name.len() - 4) =~= x);
    if e.name@ == name {
        let tail = name.skip(name.len() - 8);
        if tail == debris_suffix() {
            assert(tail[7] == name[name.len() - 1]);
            assert(name.skip(name.len() - 4)[3] == name[name.len() - 1]);
            assert(x[3] == 'x');
            assert(debris_suffix()[7] == 'p');
        }
    }
    if e.name@ == name + seq!['.', 't', 'm', 'p'] {
        let tail = e.name@.skip(e.name@.len() - 8);
        assert(tail =~= x + seq!['.', 't', 'm', 'p']);
        assert(tail =~= debris_suffix());
    }
}

/// Only a file in a directory with a hex name is ours, and what is complete has a name
/// that states its range.
pub proof fn lemma_only_our_files_are_recognised(e: StagedEntry, k: StagedKind)
    requires
        call_ensures(classify, (&e,), k),
    ensures
        match k {
            StagedKind::Ignore => hex_number(e.dir@, u32::MAX as nat) is None || (name_range(
                e.name@,
            ) is None),
            StagedKind::Debris => hex_number(e.dir@, u32::MAX as nat) is Some && e.name@.len() >= 8
                && e.name@.skip(e.name@.len() - 8) == seq!['.', 'l', 't', 'x', '.', 't', 'm', 'p'],
            StagedKind::Complete { level, min, max } => hex_number(e.dir@, u32::MAX as nat) == Some(
                level as nat,
            ) && name_range(e.name@) == Some((min, max)),
        },
{
}

proof fn lemma_backlog_concat(a: Seq<StagedEntry>, b: Seq<StagedEntry>, n: nat)
    requires
        n <= b.len(),
    ensures
        backlog_of(a + b, a.len() + n) == backlog_of(a, a.len()) + backlog_of(b, n),
    decreases n,
{
    if n > 0 {
        lemma_backlog_concat(a, b, (n - 1) as nat);
        assert((a + b)[a.len() + n - 1] == b[n - 1]);
    } else {
        lemma_backlog_prefix(a, b, a.len());
    }
}

proof fn lemma_backlog_prefix(a: Seq<StagedEntry>, b: Seq<StagedEntry>, n: nat)
    requires
        n <= a.len(),
    ensures
        backlog_of(a + b, n) == backlog_of(a, n),
    decreases n,
{
    if n > 0 {
        lemma_backlog_prefix(a, b, (n - 1) as nat);
        assert((a + b)[n - 1] == a[n - 1]);
    }
}

/// The backlog of two lists is the sum of their backlogs, that of a single file is its
/// size where it is an LTX file, and nothing otherwise; the sum is capped at the greatest
/// number there is.
pub proof fn lemma_backlog_adds_up(
    a: &[StagedEntry],
    b: &[StagedEntry],
    both: &[StagedEntry],
    x: u64,
    y: u64,
    z: u64,
)
    requires
        both@ == a@ + b@,
        call_ensures(staged_backlog_bytes, (a,), x),
        call_ensures(staged_backlog_bytes, (b,), y),
        call_ensures(staged_backlog_bytes, (both,), z),
    ensures
        z == (if x + y > u64::MAX {
            u64::MAX as int
        } else {
            x + y
        }),
        a@.len() == 0 ==> x == 0,
        a@.len() == 1 ==> x == (if ends_with(a@[0].name@, seq!['.', 'l', 't', 'x']) {
            a@[0].size
        } else {
            0
        }),
{
    lemma_backlog_concat(a@, b@, b@.len());
    reveal_with_fuel(backlog_of, 2);
}

} // verus!
