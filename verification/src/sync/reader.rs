//! Reading single pages of a replica, without downloading whole files.
//!
//! A page is resolved from the newest file of a plan back: the index at the end of
//! each file says whether it carries the page and where. [`PageReader`] decides
//! which ranges to read; the caller reads them.

use crate::ltx::decoder::{decode_page_frame, file_of, indexed_page_of, page_frame_of, saturated};
use crate::ltx::error::LtxError;
use crate::ltx::format::{HEADER_SIZE, Header, PageHeader, header_of, lock_page, valid_page_size};
use crate::ltx::index::{
    INDEX_FOOTER_SIZE, PageIndexElem, decode_page_index, index_of, page_index_of,
};
use crate::ltx::layout::{lemma_word64, word64};
use crate::sync::error::SyncError;
use crate::sync::history::{
    History, carries, chained, end_before, key_records, lemma_file_index, plan_records,
    sound_history, unchanged,
};
use crate::sync::plan::{FileKey, extends, full_plan, plan_restore};
use crate::sync::restore::{plan_restore_to_txid, plan_to};
use crate::wire::{be_u64, be_value};
use std::collections::HashMap;
use vstd::prelude::*;

verus! {

broadcast use vstd::std_specs::hash::group_hash_axioms;

/// The files that a reader as of `at_txid` resolves pages from, oldest first.
pub open spec fn window_of(files: Seq<FileKey>, at_txid: Option<u64>) -> Result<
    Seq<FileKey>,
    SyncError,
> {
    match at_txid {
        None => full_plan(files),
        Some(target) => match plan_to(files, target) {
            Ok((p, _)) => Ok(p),
            Err(e) => Err(e),
        },
    }
}

/// Plans the files of a reader as of `at_txid`, or the latest transaction.
pub fn plan_window(files: &[FileKey], at_txid: Option<u64>) -> (r: Result<Vec<FileKey>, SyncError>)
    ensures
        match (r, window_of(files@, at_txid)) {
            (Ok(p), Ok(s)) => p@ == s && s.len() > 0,
            (Err(e), Err(se)) => e == se,
            _ => false,
        },
{
    match at_txid {
        None => plan_restore(files),
        Some(target) => match plan_restore_to_txid(files, target) {
            Ok((plan, _)) => Ok(plan),
            Err(e) => Err(e),
        },
    }
}

/// The headers that the oldest and the newest file of a plan start with.
pub open spec fn ends_of(oldest: Seq<u8>, newest: Seq<u8>) -> Result<(Header, Header), LtxError> {
    match header_of(oldest) {
        Err(e) => Err(e),
        Ok(first) => match header_of(newest) {
            Err(e) => Err(e),
            Ok(last) => Ok((first, last)),
        },
    }
}

/// Where the pages of a file stand: page number to offset and size. The last entry
/// for a page counts.
pub open spec fn places(es: Seq<PageIndexElem>) -> Map<u32, (u64, u64)>
    decreases es.len(),
{
    if es.len() == 0 {
        Map::empty()
    } else {
        places(es.drop_last()).insert(es.last().pgno, (es.last().offset, es.last().size))
    }
}

/// A step towards a page.
#[derive(Clone, Copy, Debug, PartialEq, Eq)]
pub enum Lookup {
    /// The index of this file of the plan, by its place, is needed first.
    LoadIndex(usize),
    /// The page frame stands here.
    Fetch { key: FileKey, offset: u64, size: u64 },
    /// The page does not exist.
    Absent,
}

/// The next step towards the page `pgno`, given the indexes loaded so far of the
/// first `n` files of a plan.
pub open spec fn lookup_of(
    plan: Seq<FileKey>,
    loaded: Seq<Option<Map<u32, (u64, u64)>>>,
    pgno: u32,
    n: nat,
) -> Lookup
    decreases n,
{
    if n == 0 {
        Lookup::Absent
    } else {
        match loaded[n - 1] {
            None => Lookup::LoadIndex((n - 1) as usize),
            Some(m) => if m.contains_key(pgno) {
                Lookup::Fetch { key: plan[n - 1], offset: m[pgno].0, size: m[pgno].1 }
            } else {
                lookup_of(plan, loaded, pgno, (n - 1) as nat)
            },
        }
    }
}

/// The next step towards the page `pgno` of a database of `commit` pages, given the
/// indexes loaded so far: a page past its end does not exist.
pub open spec fn page_lookup(
    plan: Seq<FileKey>,
    loaded: Seq<Option<Map<u32, (u64, u64)>>>,
    commit: u32,
    pgno: u32,
) -> Lookup {
    if pgno > commit {
        Lookup::Absent
    } else {
        lookup_of(plan, loaded, pgno, plan.len())
    }
}

/// Resolves pages of a replica as of the end of a plan.
pub struct PageReader {
    plan: Vec<FileKey>,
    page_size: u32,
    commit: u32,
    loaded: Vec<Option<HashMap<u32, (u64, u64)>>>,
}

impl PageReader {
    /// The files, oldest first.
    pub closed spec fn plan(&self) -> Seq<FileKey> {
        self.plan@
    }

    /// The page size of the database.
    pub closed spec fn spec_page_size(&self) -> u32 {
        self.page_size
    }

    /// The size of the database in pages.
    pub closed spec fn spec_commit(&self) -> u32 {
        self.commit
    }

    /// The indexes loaded so far.
    pub closed spec fn loaded(&self) -> Seq<Option<Map<u32, (u64, u64)>>> {
        self.loaded@.map_values(
            |m: Option<HashMap<u32, (u64, u64)>>|
                match m {
                    Some(m) => Some(m@),
                    None => None,
                },
        )
    }

    /// What always holds of a reader.
    pub closed spec fn wf(&self) -> bool {
        &&& self.loaded@.len() == self.plan@.len()
        &&& valid_page_size(self.page_size)
    }

    /// A reader over the files of a plan. `oldest` is the start of the oldest file,
    /// whose header states the page size, and `newest` that of the newest, whose
    /// header states how many pages the database has.
    pub fn new(plan: Vec<FileKey>, oldest: &[u8], newest: &[u8]) -> (r: Result<
        PageReader,
        SyncError,
    >)
        ensures
            match (r, ends_of(oldest@, newest@)) {
                (Ok(p), Ok((first, last))) => {
                    &&& p.wf()
                    &&& p.plan() == plan@
                    &&& p.spec_page_size() == first.page_size
                    &&& p.spec_commit() == last.commit
                    &&& p.loaded() == Seq::new(
                        plan@.len(),
                        |i: int| None::<Map<u32, (u64, u64)>>,
                    )
                },
                (Err(e), Err(se)) => e == SyncError::Ltx(se),
                _ => false,
            },
    {
        let first = match Header::decode(oldest) {
            Ok(h) => h,
            Err(e) => return Err(SyncError::Ltx(e)),
        };
        let last = match Header::decode(newest) {
            Ok(h) => h,
            Err(e) => return Err(SyncError::Ltx(e)),
        };
        let mut loaded: Vec<Option<HashMap<u32, (u64, u64)>>> = Vec::new();
        let mut i: usize = 0;
        while i < plan.len()
            invariant
                i <= plan@.len(),
                loaded@.len() == i,
                forall|k: int| 0 <= k < i ==> (#[trigger] loaded@[k]) is None,
            decreases plan@.len() - i,
        {
            loaded.push(None);
            i += 1;
        }
        let p = PageReader { plan, page_size: first.page_size, commit: last.commit, loaded };
        assert(p.loaded() =~= Seq::new(plan@.len(), |i: int| None::<Map<u32, (u64, u64)>>));
        Ok(p)
    }

    /// The page size of the database.
    pub fn page_size(&self) -> (n: u32)
        ensures
            n == self.spec_page_size(),
    {
        self.page_size
    }

    /// The size of the database in pages.
    pub fn commit(&self) -> (n: u32)
        ensures
            n == self.spec_commit(),
    {
        self.commit
    }

    /// The file of the plan at this place.
    pub fn key(&self, i: usize) -> (k: FileKey)
        requires
            i < self.plan().len(),
        ensures
            k == self.plan()[i as int],
    {
        self.plan[i]
    }

    /// The next step towards the newest version of page `pgno`.
    pub fn lookup(&self, pgno: u32) -> (l: Lookup)
        requires
            self.wf(),
        ensures
            l == page_lookup(self.plan(), self.loaded(), self.spec_commit(), pgno),
            pgno > self.spec_commit() ==> l == Lookup::Absent,
    {
        if pgno > self.commit {
            return Lookup::Absent;
        }
        let mut i: usize = self.plan.len();
        while i > 0
            invariant
                i <= self.plan@.len(),
                self.loaded@.len() == self.plan@.len(),
                pgno <= self.commit,
                lookup_of(self.plan(), self.loaded(), pgno, i as nat) == lookup_of(
                    self.plan(),
                    self.loaded(),
                    pgno,
                    self.plan().len(),
                ),
            decreases i,
        {
            i -= 1;
            match &self.loaded[i] {
                None => {
                    return Lookup::LoadIndex(i);
                },
                Some(m) => {
                    assert(self.loaded()[i as int] == Some(m@));
                    match m.get(&pgno) {
                        Some(place) => {
                            return Lookup::Fetch {
                                key: self.plan[i],
                                offset: place.0,
                                size: place.1,
                            };
                        },
                        None => {},
                    }
                },
            }
        }
        Lookup::Absent
    }

    /// Takes the bytes of the index of the file at place `i`.
    pub fn store_index(&mut self, i: usize, bytes: &[u8]) -> (r: Result<(), SyncError>)
        requires
            old(self).wf(),
            i < old(self).plan().len(),
        ensures
            final(self).wf(),
            final(self).plan() == old(self).plan(),
            final(self).spec_page_size() == old(self).spec_page_size(),
            final(self).spec_commit() == old(self).spec_commit(),
            match index_of(bytes@) {
                Err(e) => {
                    &&& r == Err::<(), SyncError>(SyncError::Ltx(e))
                    &&& final(self).loaded() == old(self).loaded()
                },
                Ok(es) => {
                    &&& r == Ok::<(), SyncError>(())
                    &&& final(self).loaded() == old(self).loaded().update(
                        i as int,
                        Some(places(es)),
                    )
                },
            },
    {
        let es = match decode_page_index(bytes) {
            Ok(es) => es,
            Err(e) => return Err(SyncError::Ltx(e)),
        };
        let mut m: HashMap<u32, (u64, u64)> = HashMap::new();
        let mut k: usize = 0;
        assert(es@.take(0) =~= Seq::empty());
        assert(m@ =~= places(es@.take(0)));
        while k < es.len()
            invariant
                k <= es@.len(),
                m@ == places(es@.take(k as int)),
            decreases es@.len() - k,
        {
            assert(es@.take(k + 1).drop_last() =~= es@.take(k as int));
            let e = es[k];
            m.insert(e.pgno, (e.offset, e.size));
            k += 1;
        }
        assert(es@.take(k as int) =~= es@);
        let ghost before = self.loaded();
        self.loaded.set(i, Some(m));
        assert(self.loaded() =~= before.update(i as int, Some(places(es@))));
        Ok(())
    }

    /// Decodes the page frame that a lookup led to.
    pub fn decode(&self, frame: &[u8]) -> (r: Result<Vec<u8>, SyncError>)
        requires
            self.wf(),
        ensures
            match (r, page_frame_of(frame@, self.spec_page_size() as nat)) {
                (Ok(d), Ok((_, sd))) => d@ == sd,
                (Err(e), Err(se)) => e == SyncError::Ltx(se),
                _ => false,
            },
    {
        match decode_page_frame(frame, self.page_size as usize) {
            Ok((_, data)) => Ok(data),
            Err(e) => Err(SyncError::Ltx(e)),
        }
    }
}

/// Where the footer of a file of `size` bytes stands: its offset.
pub fn footer_offset(size: u64) -> (r: Result<u64, SyncError>)
    ensures
        r == if size < INDEX_FOOTER_SIZE {
            Err::<u64, SyncError>(
                SyncError::Ltx(
                    LtxError::ShortBuffer {
                        need: INDEX_FOOTER_SIZE as usize,
                        got: size as usize,
                    },
                ),
            )
        } else {
            Ok::<u64, SyncError>((size - INDEX_FOOTER_SIZE) as u64)
        },
{
    if size < INDEX_FOOTER_SIZE {
        return Err(
            SyncError::Ltx(
                LtxError::ShortBuffer { need: INDEX_FOOTER_SIZE as usize, got: size as usize },
            ),
        );
    }
    Ok(size - INDEX_FOOTER_SIZE)
}

/// Where the index of a file of `size` bytes with this footer stands: its offset
/// and its length.
pub open spec fn index_range_of(size: u64, footer: Seq<u8>) -> Result<(u64, u64), SyncError> {
    if footer.len() < 8 {
        Err(SyncError::Ltx(LtxError::ShortBuffer { need: 8, got: footer.len() as usize }))
    } else {
        let n = be_value(footer.subrange(0, 8));
        if n + INDEX_FOOTER_SIZE > size {
            Err(
                SyncError::Ltx(
                    LtxError::ShortBuffer {
                        need: saturated(n + INDEX_FOOTER_SIZE as nat),
                        got: saturated(size as nat),
                    },
                ),
            )
        } else {
            Ok(((size - INDEX_FOOTER_SIZE - n) as u64, n as u64))
        }
    }
}

/// Finds the index of a file of `size` bytes from its footer.
pub fn index_range(size: u64, footer: &[u8]) -> (r: Result<(u64, u64), SyncError>)
    ensures
        r == index_range_of(size, footer@),
{
    if footer.len() < 8 {
        return Err(SyncError::Ltx(LtxError::ShortBuffer { need: 8, got: footer.len() }));
    }
    let n: u64 = be_u64(footer, 0);
    let need: u128 = n as u128 + INDEX_FOOTER_SIZE as u128;
    if need > size as u128 {
        let need: usize = if need > usize::MAX as u128 {
            usize::MAX
        } else {
            need as usize
        };
        let got: usize = if size > usize::MAX as u64 {
            usize::MAX
        } else {
            size as usize
        };
        return Err(SyncError::Ltx(LtxError::ShortBuffer { need, got }));
    }
    Ok((size - INDEX_FOOTER_SIZE - n, n))
}

/// The ranges that a reader reads give the index of the file: reading its footer,
/// and the range that the footer leads to, is reading its index.
pub proof fn lemma_ranges_read_the_index(b: Seq<u8>)
    requires
        HEADER_SIZE + INDEX_FOOTER_SIZE <= b.len() <= u64::MAX,
        index_range_of(b.len() as u64, b.skip(b.len() - INDEX_FOOTER_SIZE as int)) is Ok,
    ensures
        ({
            let (offset, len) = index_range_of(
                b.len() as u64,
                b.skip(b.len() - INDEX_FOOTER_SIZE as int),
            )->Ok_0;
            page_index_of(b) == index_of(b.subrange(offset as int, offset + len))
        }),
{
    reveal(page_index_of);
    let at = b.len() - INDEX_FOOTER_SIZE as int;
    assert(b.skip(at).subrange(0, 8) =~= b.subrange(at, at + 8));
}

proof fn lemma_places(es: Seq<PageIndexElem>, pgno: u32)
    ensures
        places(es).contains_key(pgno) <==> exists|i: int|
            0 <= i < es.len() && (#[trigger] es[i]).pgno == pgno,
        places(es).contains_key(pgno) ==> exists|i: int|
            0 <= i < es.len() && (#[trigger] es[i]).pgno == pgno && places(es)[pgno] == (
                es[i].offset,
                es[i].size,
            ),
    decreases es.len(),
{
    if es.len() > 0 {
        let front = es.drop_last();
        lemma_places(front, pgno);
        if es.last().pgno == pgno {
            assert(es[es.len() - 1].pgno == pgno);
        } else {
            if places(front).contains_key(pgno) {
                let i = choose|i: int|
                    0 <= i < front.len() && (#[trigger] front[i]).pgno == pgno && places(front)[pgno]
                        == (front[i].offset, front[i].size);
                assert(es[i].pgno == pgno);
            }
            if exists|i: int| 0 <= i < es.len() && (#[trigger] es[i]).pgno == pgno {
                let i = choose|i: int| 0 <= i < es.len() && (#[trigger] es[i]).pgno == pgno;
                assert(front[i].pgno == pgno);
            }
        }
    }
}

/// Every entry of the file's index names the page that its frame holds.
pub open spec fn index_agrees(b: Seq<u8>) -> bool {
    &&& page_index_of(b) is Ok
    &&& file_of(b) is Ok
    &&& forall|i: int|
        0 <= i < page_index_of(b)->Ok_0.len() ==> (#[trigger] page_index_of(b)->Ok_0[i]).pgno
            == file_of(b)->Ok_0.pages[i].0
}

/// The index of every file of the plan is loaded.
pub open spec fn all_loaded(
    content: spec_fn(FileKey) -> Seq<u8>,
    plan: Seq<FileKey>,
    loaded: Seq<Option<Map<u32, (u64, u64)>>>,
) -> bool {
    &&& loaded.len() == plan.len()
    &&& forall|k: int|
        0 <= k < plan.len() ==> index_agrees(content(#[trigger] plan[k])) && loaded[k] == Some(
            places(page_index_of(content(plan[k]))->Ok_0),
        )
}

/// Reading a page gives the page as it was: for every page of the database at the
/// plan's end, other than the lock page, a lookup leads to a frame that decodes to
/// the data of that page.
pub proof fn lemma_lookup_reads_history(
    content: spec_fn(FileKey) -> Seq<u8>,
    h: History,
    page_size: u32,
    plan: Seq<FileKey>,
    loaded: Seq<Option<Map<u32, (u64, u64)>>>,
    pgno: u32,
    n: nat,
)
    requires
        sound_history(h, page_size),
        chained(plan, 0),
        plan_records(content, h, page_size, plan),
        all_loaded(content, plan, loaded),
        n <= plan.len(),
        1 <= pgno <= h(end_before(plan, 0, n as int)).commit,
        pgno != lock_page(page_size),
    ensures
        lookup_of(plan, loaded, pgno, n) matches Lookup::Fetch { key, offset, size } && (
        page_frame_of(
            content(key).subrange(offset as int, offset + size),
            page_size as nat,
        ) matches Ok((ph, d)) && ph.pgno == pgno && d == (h(end_before(plan, 0, n as int)).page)(
            pgno,
        )),
    decreases n,
{
    assert(n > 0);
    let key = plan[n - 1];
    let b = content(key);
    assert(key_records(content, h, page_size, plan[n - 1]));
    assert(extends(plan[n - 1], end_before(plan, 0, n - 1)));
    assert(index_agrees(content(plan[n - 1])));
    let f = file_of(b)->Ok_0;
    let es = page_index_of(b)->Ok_0;
    lemma_file_index(b);
    lemma_places(es, pgno);
    if places(es).contains_key(pgno) {
        let i = choose|i: int|
            0 <= i < es.len() && (#[trigger] es[i]).pgno == pgno && places(es)[pgno] == (
                es[i].offset,
                es[i].size,
            );
        reveal(indexed_page_of);
        assert(indexed_page_of(b, es[i], page_size as nat) is Ok);
        assert(f.pages[i].0 == pgno);
        assert(f.pages[i].1 == (h(key.2).page)(f.pages[i].0));
    } else {
        if carries(f.pages, pgno) {
            let i = choose|i: int| 0 <= i < f.pages.len() && (#[trigger] f.pages[i]).0 == pgno;
            assert(es[i].pgno == pgno);
        }
        assert(unchanged(h, pgno, key.1 - 1, key.2));
        let before = end_before(plan, 0, n - 1);
        assert(pgno <= h(before).commit);
        lemma_lookup_reads_history(content, h, page_size, plan, loaded, pgno, (n - 1) as nat);
    }
}

/// A reader agrees with a restore: with the size that the newest file states, a page
/// past the end of the database is absent, and every other page but the lock page
/// leads to its data as of the plan's end.
pub proof fn lemma_reader_agrees_with_restore(
    content: spec_fn(FileKey) -> Seq<u8>,
    h: History,
    page_size: u32,
    plan: Seq<FileKey>,
    loaded: Seq<Option<Map<u32, (u64, u64)>>>,
    pgno: u32,
)
    requires
        sound_history(h, page_size),
        plan.len() > 0,
        chained(plan, 0),
        plan_records(content, h, page_size, plan),
        all_loaded(content, plan, loaded),
        pgno >= 1,
        pgno != lock_page(page_size),
    ensures
        ({
            let end = h(plan.last().2);
            let commit = file_of(content(plan.last()))->Ok_0.header.commit;
            if pgno > end.commit {
                page_lookup(plan, loaded, commit, pgno) == Lookup::Absent
            } else {
                page_lookup(plan, loaded, commit, pgno) matches Lookup::Fetch { key, offset, size }
                    && (page_frame_of(
                    content(key).subrange(offset as int, offset + size),
                    page_size as nat,
                ) matches Ok((ph, d)) && ph.pgno == pgno && d == (end.page)(pgno))
            }
        }),
{
    assert(key_records(content, h, page_size, plan[plan.len() - 1]));
    if pgno <= h(plan.last().2).commit {
        lemma_lookup_reads_history(content, h, page_size, plan, loaded, pgno, plan.len());
    }
}

/// From file `i` on, every index is loaded and none has the page.
pub open spec fn not_from(
    loaded: Seq<Option<Map<u32, (u64, u64)>>>,
    i: int,
    pgno: u32,
) -> bool {
    forall|k: int|
        i <= k < loaded.len() ==> ((#[trigger] loaded[k]) matches Some(m) && !m.contains_key(pgno))
}

/// A lookup leads to the newest file that has the page, and asks for an index only where
/// all newer files lack the page. A page is absent where it lies past the end, or where no
/// file has it.
pub proof fn lemma_lookup_finds_the_newest(p: PageReader, pgno: u32, l: Lookup)
    requires
        p.wf(),
        p.plan().len() <= usize::MAX,
        call_ensures(PageReader::lookup, (&p, pgno), l),
    ensures
        match l {
            Lookup::Absent => pgno > p.spec_commit() || not_from(p.loaded(), 0, pgno),
            Lookup::LoadIndex(i) => {
                &&& pgno <= p.spec_commit()
                &&& i < p.plan().len()
                &&& p.loaded()[i as int] is None
                &&& not_from(p.loaded(), i + 1, pgno)
            },
            Lookup::Fetch { key, offset, size } => pgno <= p.spec_commit() && exists|i: int|
                0 <= i < p.plan().len() && p.plan()[i] == key && (
                (#[trigger] p.loaded()[i]) matches Some(m) && m.contains_key(pgno) && m[pgno] == (
                    offset,
                    size,
                )) && not_from(p.loaded(), i + 1, pgno),
        },
{
    if pgno <= p.spec_commit() {
        lemma_newest(p.plan(), p.loaded(), pgno, p.plan().len());
    }
}

proof fn lemma_newest(
    plan: Seq<FileKey>,
    loaded: Seq<Option<Map<u32, (u64, u64)>>>,
    pgno: u32,
    n: nat,
)
    requires
        n <= plan.len(),
        loaded.len() == plan.len(),
        plan.len() <= usize::MAX,
        not_from(loaded, n as int, pgno),
    ensures
        match lookup_of(plan, loaded, pgno, n) {
            Lookup::Absent => not_from(loaded, 0, pgno),
            Lookup::LoadIndex(i) => {
                &&& i < plan.len()
                &&& loaded[i as int] is None
                &&& not_from(loaded, i + 1, pgno)
            },
            Lookup::Fetch { key, offset, size } => exists|i: int|
                0 <= i < plan.len() && plan[i] == key && ((#[trigger] loaded[i]) matches Some(m)
                    && m.contains_key(pgno) && m[pgno] == (offset, size)) && not_from(
                    loaded,
                    i + 1,
                    pgno,
                ),
        },
    decreases n,
{
    if n > 0 {
        match loaded[n - 1] {
            None => {},
            Some(m) => {
                if !m.contains_key(pgno) {
                    lemma_newest(plan, loaded, pgno, (n - 1) as nat);
                }
            },
        }
    }
}

/// Where a page stands is what the last entry for it says, and a page without an entry
/// stands nowhere.
pub proof fn lemma_last_entry_counts(es: Seq<PageIndexElem>, pgno: u32, i: int)
    requires
        0 <= i < es.len(),
        es[i].pgno == pgno,
        forall|j: int| i < j < es.len() ==> (#[trigger] es[j]).pgno != pgno,
    ensures
        places(es).contains_key(pgno),
        places(es)[pgno] == (es[i].offset, es[i].size),
    decreases es.len(),
{
    if i < es.len() - 1 {
        let front = es.drop_last();
        assert(es[es.len() - 1].pgno != pgno);
        assert forall|j: int| i < j < front.len() implies (#[trigger] front[j]).pgno != pgno by {
            assert(es[j].pgno != pgno);
        }
        lemma_last_entry_counts(front, pgno, i);
    }
}

/// A page without an entry stands nowhere.
pub proof fn lemma_no_entry_no_place(es: Seq<PageIndexElem>, pgno: u32)
    requires
        forall|j: int| 0 <= j < es.len() ==> (#[trigger] es[j]).pgno != pgno,
    ensures
        !places(es).contains_key(pgno),
{
    lemma_places(es, pgno);
}

/// A reader has the page size of the oldest file and the size of the newest.
pub proof fn lemma_reader_has_the_newest_size(
    plan: Vec<FileKey>,
    oldest: &[u8],
    newest: &[u8],
    first: Result<Header, LtxError>,
    last: Result<Header, LtxError>,
    r: Result<PageReader, SyncError>,
)
    requires
        call_ensures(Header::decode, (oldest,), first),
        call_ensures(Header::decode, (newest,), last),
        call_ensures(PageReader::new, (plan, oldest, newest), r),
    ensures
        first matches Err(e) ==> (r matches Err(x) && x == SyncError::Ltx(e)),
        first is Ok ==> (last matches Err(e) ==> (r matches Err(x) && x == SyncError::Ltx(e))),
        first is Ok && last is Ok ==> (r matches Ok(p) && (p.plan() == plan@ && p.spec_page_size()
            == first->Ok_0.page_size && p.spec_commit() == last->Ok_0.commit && p.loaded().len()
            == plan@.len() && forall|i: int|
            0 <= i < plan@.len() ==> (#[trigger] p.loaded()[i]) is None)),
{
}

/// A page is decoded as its frame stands.
pub proof fn lemma_reader_decodes_frames(
    p: PageReader,
    frame: &[u8],
    page: Result<(PageHeader, Vec<u8>), LtxError>,
    r: Result<Vec<u8>, SyncError>,
)
    requires
        p.wf(),
        call_ensures(decode_page_frame, (frame, p.spec_page_size() as usize), page),
        call_ensures(PageReader::decode, (&p, frame), r),
    ensures
        match (r, page) {
            (Ok(a), Ok((_, b))) => a@ == b@,
            (Err(e), Err(x)) => e == SyncError::Ltx(x),
            _ => false,
        },
{
}

/// The ranges of a file: its footer is its last 24 bytes, and the index stands before it, as
/// long as the footer says; a file that cannot hold them is too short.
pub proof fn lemma_ranges(
    size: u64,
    footer: &[u8],
    offset: Result<u64, SyncError>,
    range: Result<(u64, u64), SyncError>,
)
    requires
        call_ensures(footer_offset, (size,), offset),
        call_ensures(index_range, (size, footer), range),
    ensures
        offset is Ok <==> size >= 24,
        offset matches Ok(at) ==> at + 24 == size,
        range is Ok <==> footer@.len() >= 8 && word64(footer@, 0) + 24 <= size,
        range matches Ok((at, n)) ==> n == word64(footer@, 0) && at + n + 24 == size,
{
    if footer@.len() >= 8 {
        lemma_word64(footer@, 0);
    }
}

/// Loading an index fills in that of its file and no other; one that cannot be read changes
/// nothing.
pub proof fn lemma_index_is_loaded(
    p: &mut PageReader,
    i: usize,
    bytes: &[u8],
    es: Result<Vec<PageIndexElem>, LtxError>,
    r: Result<(), SyncError>,
    k: int,
)
    requires
        old(p).wf(),
        i < old(p).plan().len(),
        old(p).loaded().len() == old(p).plan().len(),
        0 <= k < old(p).plan().len(),
        call_ensures(decode_page_index, (bytes,), es),
        call_ensures(PageReader::store_index, (p, i, bytes), r),
    ensures
        final(p).plan() == old(p).plan(),
        final(p).spec_commit() == old(p).spec_commit(),
        final(p).spec_page_size() == old(p).spec_page_size(),
        es matches Err(e) ==> r == Err::<(), SyncError>(SyncError::Ltx(e)) && final(p).loaded()
            == old(p).loaded(),
        es matches Ok(v) ==> r is Ok && final(p).loaded()[k] == (if k == i {
            Some(places(v@))
        } else {
            old(p).loaded()[k]
        }),
{
}

/// A reader tells its page size, its size, and its files.
pub proof fn lemma_reader_tells(p: PageReader, n: u32, c: u32, i: usize, k: FileKey)
    requires
        i < p.plan().len(),
        call_ensures(PageReader::page_size, (&p,), n),
        call_ensures(PageReader::commit, (&p,), c),
        call_ensures(PageReader::key, (&p, i), k),
    ensures
        n == p.spec_page_size(),
        c == p.spec_commit(),
        k == p.plan()[i as int],
{
}

} // verus!
