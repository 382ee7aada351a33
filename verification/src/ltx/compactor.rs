//! LTX compaction: merge a contiguous run of LTX files into one, keeping only
//! the latest version of each page.
//!
//! The latest version of each page wins, pages beyond the final commit size are
//! dropped, and the output header takes its minimum TXID from the first input
//! and its maximum TXID, commit size and timestamp from the last.
//!
//! Only the header and the page index of each input are read up front; the
//! merge then walks the indexes side by side and decodes one page at a time.

use crate::ltx::checksum::Checksum;
use crate::ltx::decoder::{
    FileView, decode_indexed_page, file_of, indexed_page_of, lemma_indexed_page_len,
};
use crate::ltx::encoder::{
    Encoder, EncoderStage, PageRec, admissible, encode_page_result, entries, file_bytes,
    file_trailer, frames_decode, last_pgno, page_rec, snapshot_successor,
};
use crate::ltx::error::LtxError;
use crate::ltx::format::{
    HEADER_FLAG_NO_CHECKSUM, Header, header_of, header_validity, lock_page, valid_page_size,
};
use crate::ltx::index::{
    INDEX_FOOTER_SIZE, PageIndexElem, index_start, lemma_index_len, page_index, page_index_of,
};
use crate::ltx::roundtrip::{lemma_file_round_trip, lemma_index_read_back, page_views};
use vstd::prelude::*;

verus! {

/// The contents of a list of buffers.
pub open spec fn buffers(inputs: Seq<&[u8]>) -> Seq<Seq<u8>> {
    inputs.map_values(|b: &[u8]| b@)
}

/// The contents of a list of indexes.
pub open spec fn index_views(v: Seq<Vec<PageIndexElem>>) -> Seq<Seq<PageIndexElem>> {
    v.map_values(|x: Vec<PageIndexElem>| x@)
}

/// Whether index `i` has an entry left at its cursor.
pub open spec fn has_head(idx: Seq<Seq<PageIndexElem>>, cur: Seq<usize>, i: int) -> bool {
    cur[i] < idx[i].len()
}

/// The page number at the cursor of index `i`.
pub open spec fn head_pgno(idx: Seq<Seq<PageIndexElem>>, cur: Seq<usize>, i: int) -> u32 {
    idx[i][cur[i] as int].pgno
}

/// Of the first `k` indexes, the one whose next entry has the lowest page
/// number; the first such index where several do.
pub open spec fn first_head(idx: Seq<Seq<PageIndexElem>>, cur: Seq<usize>, k: nat) -> Option<int>
    decreases k,
{
    if k == 0 {
        None
    } else {
        let i = k - 1;
        match first_head(idx, cur, (k - 1) as nat) {
            None => if has_head(idx, cur, i) {
                Some(i)
            } else {
                None
            },
            Some(b) => if has_head(idx, cur, i) && head_pgno(idx, cur, i) < head_pgno(idx, cur, b) {
                Some(i)
            } else {
                Some(b)
            },
        }
    }
}

/// How many entries the first `k` indexes have left.
pub open spec fn left(idx: Seq<Seq<PageIndexElem>>, cur: Seq<usize>, k: nat) -> nat
    decreases k,
{
    if k == 0 {
        0
    } else {
        left(idx, cur, (k - 1) as nat) + if has_head(idx, cur, k - 1) {
            (idx[k - 1].len() - cur[k - 1]) as nat
        } else {
            0
        }
    }
}

/// `cur` with the cursor of index `i` moved on by one entry.
pub open spec fn bumped(cur: Seq<usize>, i: int) -> Seq<usize> {
    cur.update(i, (cur[i] + 1) as usize)
}

pub proof fn lemma_first_head(idx: Seq<Seq<PageIndexElem>>, cur: Seq<usize>, k: nat)
    requires
        k <= idx.len(),
        idx.len() == cur.len(),
    ensures
        match first_head(idx, cur, k) {
            None => forall|j: int| 0 <= j < k ==> !#[trigger] has_head(idx, cur, j),
            Some(i) => {
                &&& 0 <= i < k
                &&& has_head(idx, cur, i)
                &&& forall|j: int|
                    0 <= j < k && #[trigger] has_head(idx, cur, j) ==> head_pgno(idx, cur, i)
                        <= head_pgno(idx, cur, j) && (head_pgno(idx, cur, j) == head_pgno(
                        idx,
                        cur,
                        i,
                    ) ==> i <= j)
            },
        },
    decreases k,
{
    if k > 0 {
        lemma_first_head(idx, cur, (k - 1) as nat);
    }
}

pub proof fn lemma_left_shrinks(idx: Seq<Seq<PageIndexElem>>, cur: Seq<usize>, i: int, k: nat)
    requires
        k <= idx.len(),
        idx.len() == cur.len(),
        0 <= i < idx.len(),
        has_head(idx, cur, i),
        cur[i] < usize::MAX,
    ensures
        left(idx, bumped(cur, i), k) == left(idx, cur, k) - (if i < k {
            1int
        } else {
            0int
        }),
    decreases k,
{
    if k > 0 {
        lemma_left_shrinks(idx, cur, i, (k - 1) as nat);
    }
}

/// The winners of the merge: walking all indexes by ascending page number (and
/// by input where page numbers agree), the last entry of each run of equal page
/// numbers, as an input and a position in its index.
pub open spec fn winners(idx: Seq<Seq<PageIndexElem>>, cur: Seq<usize>) -> Seq<(int, int)>
    decreases left(idx, cur, idx.len()),
{
    if idx.len() != cur.len() {
        Seq::empty()
    } else {
        match first_head(idx, cur, idx.len()) {
            None => Seq::empty(),
            Some(i) => {
                proof {
                    lemma_first_head(idx, cur, idx.len());
                    if cur[i] < usize::MAX {
                        lemma_left_shrinks(idx, cur, i, idx.len());
                    }
                }
                if cur[i] == usize::MAX {
                    Seq::empty()
                } else {
                    let next = bumped(cur, i);
                    let rest = winners(idx, next);
                    match first_head(idx, next, idx.len()) {
                        Some(j) if head_pgno(idx, next, j) == head_pgno(idx, cur, i) => rest,
                        _ => seq![(i, cur[i] as int)] + rest,
                    }
                }
            },
        }
    }
}

/// The pages that the first `n` winners `ws` put into the output.
pub open spec fn merged_pages(
    bufs: Seq<Seq<u8>>,
    idx: Seq<Seq<PageIndexElem>>,
    h: Header,
    ws: Seq<(int, int)>,
    n: nat,
) -> Result<Seq<PageRec>, LtxError>
    decreases n,
{
    if n == 0 {
        Ok(Seq::empty())
    } else {
        match merged_pages(bufs, idx, h, ws, (n - 1) as nat) {
            Err(e) => Err(e),
            Ok(ps) => {
                let (i, pos) = ws[n - 1];
                let e = idx[i][pos];
                if e.pgno > h.commit {
                    Ok(ps)
                } else {
                    match indexed_page_of(bufs[i], e, h.page_size as nat) {
                        Err(err) => Err(err),
                        Ok((_, d)) => match encode_page_result(h, last_pgno(ps), e.pgno, d) {
                            Err(err) => Err(err),
                            Ok(()) => Ok(ps.push(page_rec(e.pgno, d))),
                        },
                    }
                }
            },
        }
    }
}

/// The page indexes of the first `n` inputs.
pub open spec fn indexes_of(bufs: Seq<Seq<u8>>, n: nat) -> Result<Seq<Seq<PageIndexElem>>, LtxError>
    decreases n,
{
    if n == 0 {
        Ok(Seq::empty())
    } else {
        match indexes_of(bufs, (n - 1) as nat) {
            Err(e) => Err(e),
            Ok(v) => match page_index_of(bufs[n - 1]) {
                Err(e) => Err(e),
                Ok(es) => Ok(v.push(es)),
            },
        }
    }
}

/// Cursors at the start of `n` indexes.
pub open spec fn at_start(n: nat) -> Seq<usize> {
    Seq::new(n, |i: int| 0usize)
}

/// What merging the files `bufs` under the header `h` gives: the pages of the
/// output.
pub open spec fn merge_of(bufs: Seq<Seq<u8>>, h: Header) -> Result<Seq<PageRec>, LtxError> {
    match indexes_of(bufs, bufs.len()) {
        Err(e) => Err(e),
        Ok(idx) => match header_validity(h) {
            Err(e) => Err(e),
            Ok(()) => {
                let ws = winners(idx, at_start(idx.len()));
                merged_pages(bufs, idx, h, ws, ws.len())
            },
        },
    }
}

fn next_head(indexes: &Vec<Vec<PageIndexElem>>, cur: &Vec<usize>) -> (r: Option<usize>)
    requires
        indexes@.len() == cur@.len(),
    ensures
        match (r, first_head(index_views(indexes@), cur@, indexes@.len())) {
            (None, None) => true,
            (Some(i), Some(s)) => i == s && i < indexes@.len() && cur@[i as int]
                < indexes@[i as int]@.len(),
            _ => false,
        },
{
    let ghost idx = index_views(indexes@);
    let mut best: Option<usize> = None;
    let mut k: usize = 0;
    while k < indexes.len()
        invariant
            k <= indexes@.len(),
            indexes@.len() == cur@.len(),
            idx == index_views(indexes@),
            match (best, first_head(idx, cur@, k as nat)) {
                (None, None) => true,
                (Some(i), Some(s)) => i == s && i < k && cur@[i as int] < indexes@[i as int]@.len(),
                _ => false,
            },
        decreases indexes@.len() - k,
    {
        let c: usize = cur[k];
        assert(idx[k as int] == indexes@[k as int]@);
        if c < indexes[k].len() {
            match best {
                None => {
                    best = Some(k);
                },
                Some(b) => {
                    assert(idx[b as int] == indexes@[b as int]@);
                    if indexes[k][c].pgno < indexes[b][cur[b]].pgno {
                        best = Some(k);
                    }
                },
            }
        }
        k += 1;
    }
    best
}

proof fn lemma_merged_error(
    bufs: Seq<Seq<u8>>,
    idx: Seq<Seq<PageIndexElem>>,
    h: Header,
    ws: Seq<(int, int)>,
    i: nat,
    n: nat,
)
    requires
        i <= n,
        merged_pages(bufs, idx, h, ws, i) is Err,
    ensures
        merged_pages(bufs, idx, h, ws, n) == merged_pages(bufs, idx, h, ws, i),
    decreases n - i,
{
    if i < n {
        lemma_merged_error(bufs, idx, h, ws, i, (n - 1) as nat);
    }
}

proof fn lemma_indexes_error(bufs: Seq<Seq<u8>>, i: nat, n: nat)
    requires
        i <= n,
        indexes_of(bufs, i) is Err,
    ensures
        indexes_of(bufs, n) == indexes_of(bufs, i),
    decreases n - i,
{
    if i < n {
        lemma_indexes_error(bufs, i, (n - 1) as nat);
    }
}

fn read_indexes(inputs: &[&[u8]]) -> (r: Result<Vec<Vec<PageIndexElem>>, LtxError>)
    ensures
        match (r, indexes_of(buffers(inputs@), inputs@.len())) {
            (Ok(v), Ok(s)) => index_views(v@) == s && v@.len() == inputs@.len(),
            (Err(e), Err(se)) => e == se,
            _ => false,
        },
{
    let ghost bufs = buffers(inputs@);
    let mut v: Vec<Vec<PageIndexElem>> = Vec::new();
    let mut i: usize = 0;
    assert(index_views(v@) =~= Seq::empty());
    while i < inputs.len()
        invariant
            i <= inputs@.len(),
            bufs == buffers(inputs@),
            v@.len() == i,
            indexes_of(bufs, i as nat) == Ok::<Seq<Seq<PageIndexElem>>, LtxError>(index_views(v@)),
        decreases inputs@.len() - i,
    {
        assert(bufs[i as int] == inputs@[i as int]@);
        match page_index(inputs[i]) {
            Ok(es) => {
                let ghost before = v@;
                v.push(es);
                assert(index_views(v@) =~= index_views(before).push(es@));
            },
            Err(e) => {
                proof {
                    lemma_indexes_error(bufs, (i + 1) as nat, inputs@.len());
                }
                return Err(e);
            },
        }
        i += 1;
    }
    Ok(v)
}

/// A merge in progress: a k-way walk over the page indexes of the inputs, which
/// decodes and writes one page at a time. The output can be taken out as it grows, so
/// that besides the inputs no more than a few pages need to be in memory.
pub struct Merge<'a, 'b> {
    inputs: &'a [&'b [u8]],
    indexes: Vec<Vec<PageIndexElem>>,
    cur: Vec<usize>,
    head: Option<usize>,
    header: Header,
    enc: Encoder,
    /// How many of the winning entries are dealt with.
    done: Ghost<nat>,
}

impl<'a, 'b> Merge<'a, 'b> {
    /// The contents of the inputs.
    pub closed spec fn bufs(&self) -> Seq<Seq<u8>> {
        buffers(self.inputs@)
    }

    /// The header of the output.
    pub closed spec fn spec_header(&self) -> Header {
        self.header
    }

    /// The bytes of the output that were taken so far.
    pub closed spec fn taken(&self) -> Seq<u8> {
        self.enc.taken()
    }

    /// The bytes of the output so far.
    pub closed spec fn output(&self) -> Seq<u8> {
        self.enc.output()
    }

    /// How many index entries are left.
    pub closed spec fn entries_left(&self) -> nat {
        left(self.idx(), self.cur@, self.idx().len())
    }

    spec fn idx(&self) -> Seq<Seq<PageIndexElem>> {
        index_views(self.indexes@)
    }

    spec fn ws(&self) -> Seq<(int, int)> {
        winners(self.idx(), at_start(self.idx().len()))
    }

    /// What always holds of a merge: the pages written so far are those of the
    /// winning entries so far.
    pub closed spec fn wf(&self) -> bool {
        &&& self.indexes@.len() == self.cur@.len()
        &&& self.indexes@.len() == self.inputs@.len()
        &&& valid_page_size(self.header.page_size)
        &&& header_validity(self.header) is Ok
        &&& indexes_of(self.bufs(), self.bufs().len()) == Ok::<
            Seq<Seq<PageIndexElem>>,
            LtxError,
        >(self.idx())
        &&& self.done@ <= self.ws().len()
        &&& winners(self.idx(), self.cur@) == self.ws().skip(self.done@ as int)
        &&& match (self.head, first_head(self.idx(), self.cur@, self.idx().len())) {
            (None, None) => true,
            (Some(i), Some(s)) => i == s && i < self.indexes@.len() && self.cur@[i as int]
                < self.indexes@[i as int]@.len(),
            _ => false,
        }
        &&& self.enc.wf()
        &&& self.enc.spec_stage() == EncoderStage::Page
        &&& self.enc.spec_header() == Some(self.header)
        &&& self.enc.post_apply() == Checksum(0)
        &&& merged_pages(self.bufs(), self.idx(), self.header, self.ws(), self.done@) == Ok::<
            Seq<PageRec>,
            LtxError,
        >(self.enc.pages())
        &&& frames_decode(self.enc.pages())
    }

    /// Every entry is dealt with.
    pub closed spec fn complete(&self) -> bool {
        self.head is None
    }

    /// Starts a merge of `inputs` into a file with the given `header`.
    pub fn begin(inputs: &'a [&'b [u8]], header: Header) -> (r: Result<Merge<'a, 'b>, LtxError>)
        ensures
            match r {
                Ok(m) => {
                    &&& m.wf()
                    &&& m.bufs() == buffers(inputs@)
                    &&& m.spec_header() == header
                    &&& m.taken() == Seq::<u8>::empty()
                    &&& indexes_of(buffers(inputs@), inputs@.len()) is Ok
                    &&& header_validity(header) is Ok
                },
                Err(e) => merge_of(buffers(inputs@), header) == Err::<Seq<PageRec>, LtxError>(e) && (
                indexes_of(buffers(inputs@), inputs@.len()) is Err || header_validity(header)
                    is Err),
            },
    {
        let indexes = match read_indexes(inputs) {
            Ok(v) => v,
            Err(e) => return Err(e),
        };
        let ghost idx = index_views(indexes@);
        let mut enc = Encoder::new();
        match enc.encode_header(header) {
            Ok(()) => {},
            Err(e) => return Err(e),
        }
        let cur: Vec<usize> = vec![0usize; indexes.len()];
        assert(cur@ =~= at_start(idx.len()));
        let head = next_head(&indexes, &cur);
        let m = Merge { inputs, indexes, cur, head, header, enc, done: Ghost(0) };
        assert(m.ws().skip(0) =~= m.ws());
        Ok(m)
    }

    /// Deals with the next index entry, and writes its page unless a later input
    /// carries it too. Returns whether there was one.
    pub fn step(&mut self) -> (r: Result<bool, LtxError>)
        requires
            old(self).wf(),
        ensures
            final(self).bufs() == old(self).bufs(),
            final(self).spec_header() == old(self).spec_header(),
            final(self).taken() == old(self).taken(),
            match r {
                Ok(true) => {
                    &&& final(self).wf()
                    &&& final(self).entries_left() < old(self).entries_left()
                },
                Ok(false) => {
                    &&& final(self).wf()
                    &&& final(self).complete()
                    &&& final(self).entries_left() == old(self).entries_left()
                },
                Err(e) => merge_of(old(self).bufs(), old(self).spec_header()) == Err::<
                    Seq<PageRec>,
                    LtxError,
                >(e),
            },
    {
        let i: usize = match self.head {
            None => return Ok(false),
            Some(i) => i,
        };
        let ghost bufs = self.bufs();
        let ghost idx = self.idx();
        let ghost ws = self.ws();
        let ghost done = self.done@;
        let ghost cur0 = self.cur@;
        let c: usize = self.cur[i];
        assert(idx[i as int] == self.indexes@[i as int]@);
        let e = self.indexes[i][c];
        proof {
            assert(self.indexes@[i as int]@.len() == self.indexes@[i as int].len());
            lemma_left_shrinks(idx, cur0, i as int, idx.len());
        }
        self.cur.set(i, c + 1);
        assert(self.cur@ =~= bumped(cur0, i as int));
        self.head = next_head(&self.indexes, &self.cur);
        let superseded: bool = match self.head {
            Some(j) => {
                assert(idx[j as int] == self.indexes@[j as int]@);
                self.indexes[j][self.cur[j]].pgno == e.pgno
            },
            None => false,
        };
        if superseded {
            return Ok(true);
        }
        proof {
            let rest = winners(idx, self.cur@);
            let all = ws.skip(done as int);
            assert(all == seq![(i as int, c as int)] + rest);
            assert(all[0] == ws[done as int]);
            assert(ws.skip((done + 1) as int) =~= all.skip(1));
            assert(all.skip(1) =~= rest);
            assert(ws[done as int] == (i as int, c as int));
            assert(bufs[i as int] == self.inputs@[i as int]@);
        }
        if e.pgno <= self.header.commit {
            let (_, data) = match decode_indexed_page(
                self.inputs[i],
                e,
                self.header.page_size as usize,
            ) {
                Ok(x) => x,
                Err(err) => {
                    proof {
                        lemma_merged_error(bufs, idx, self.header, ws, done + 1, ws.len());
                    }
                    return Err(err);
                },
            };
            match self.enc.encode_page(e.pgno, &data) {
                Ok(()) => {},
                Err(err) => {
                    proof {
                        lemma_merged_error(bufs, idx, self.header, ws, done + 1, ws.len());
                    }
                    return Err(err);
                },
            }
        }
        self.done = Ghost(done + 1);
        Ok(true)
    }

    /// Takes out the bytes of the output that were written since the last call.
    pub fn take_output(&mut self) -> (b: Vec<u8>)
        requires
            old(self).wf(),
        ensures
            final(self).wf(),
            final(self).bufs() == old(self).bufs(),
            final(self).spec_header() == old(self).spec_header(),
            final(self).entries_left() == old(self).entries_left(),
            final(self).complete() == old(self).complete(),
            final(self).output() == old(self).output(),
            final(self).taken() == old(self).taken() + b@,
            final(self).taken() == old(self).output(),
    {
        self.enc.take_output()
    }

    /// Finishes the file once every entry is dealt with. Returns the bytes that were
    /// not taken before.
    pub fn finish(self) -> (out: Vec<u8>)
        requires
            self.wf(),
            self.complete(),
        ensures
            merge_of(self.bufs(), self.spec_header()) matches Ok(ps) && {
                &&& self.taken() + out@ == file_bytes(self.spec_header(), ps, Checksum(0))
                &&& file_of(self.taken() + out@) == Ok::<FileView, LtxError>(
                    FileView {
                        header: self.spec_header(),
                        pages: page_views(ps),
                        trailer: file_trailer(self.spec_header(), ps, Checksum(0)),
                    },
                )
            },
    {
        let ghost ws = self.ws();
        let ghost done = self.done@;
        proof {
            assert(ws.skip(done as int).len() == 0);
            assert(done == ws.len());
        }
        let header = self.header;
        let mut enc = self.enc;
        let _ = enc.finish();
        let ghost pages = enc.pages();
        proof {
            enc.lemma_pages_admissible();
            enc.lemma_output_fits();
        }
        let out = enc.into_inner();
        proof {
            lemma_file_round_trip(header, pages, Checksum(0));
        }
        out
    }
}

/// Merges `inputs` into a single LTX file with the given `header`, keeping the
/// latest version of each page (a later input wins) and dropping any page
/// beyond `header.commit`. Returns the bytes of the file; [`Merge`] gives them
/// piece by piece.
///
/// Unlike [`compact_to_writer`], contiguity is **not** checked and the header is
/// given by the caller, so this also serves a restore plan whose ranges overlap.
pub fn merge_to_writer(inputs: &[&[u8]], header: Header) -> (r: Result<Vec<u8>, LtxError>)
    ensures
        match (r, merge_of(buffers(inputs@), header)) {
            (Ok(out), Ok(ps)) => {
                &&& out@ == file_bytes(header, ps, Checksum(0))
                &&& file_of(out@) == Ok::<FileView, LtxError>(
                    FileView {
                        header,
                        pages: page_views(ps),
                        trailer: file_trailer(header, ps, Checksum(0)),
                    },
                )
            },
            (Err(e), Err(se)) => e == se,
            _ => false,
        },
{
    let mut m = match Merge::begin(inputs, header) {
        Ok(m) => m,
        Err(e) => return Err(e),
    };
    let mut more: bool = true;
    while more
        invariant
            m.wf(),
            m.bufs() == buffers(inputs@),
            m.spec_header() == header,
            m.taken() == Seq::<u8>::empty(),
            !more ==> m.complete(),
        decreases
                m.entries_left(),
                if more {
                    1int
                } else {
                    0int
                },
    {
        more = match m.step() {
            Ok(b) => b,
            Err(e) => return Err(e),
        };
    }
    let out = m.finish();
    assert(Seq::<u8>::empty() + out@ =~= out@);
    Ok(out)
}

/// The headers of the first `n` inputs.
pub open spec fn headers_of(bufs: Seq<Seq<u8>>, n: nat) -> Result<Seq<Header>, LtxError>
    decreases n,
{
    if n == 0 {
        Ok(Seq::empty())
    } else {
        match headers_of(bufs, (n - 1) as nat) {
            Err(e) => Err(e),
            Ok(v) => match header_of(bufs[n - 1]) {
                Err(e) => Err(e),
                Ok(h) => Ok(v.push(h)),
            },
        }
    }
}

/// Whether the file with header `next` may follow the one with header `prev`:
/// their TXID ranges touch or overlap, and `next` reaches further.
pub open spec fn follows(prev: Header, next: Header) -> bool {
    next.min_txid <= prev.max_txid + 1 && next.max_txid > prev.max_txid
}

/// Whether the first `n` headers chain, and if not, the first fault.
pub open spec fn chain_of(hs: Seq<Header>, n: nat) -> Result<(), LtxError>
    decreases n,
{
    if n <= 1 {
        Ok(())
    } else {
        match chain_of(hs, (n - 1) as nat) {
            Err(e) => Err(e),
            Ok(()) => {
                let prev = hs[n - 2];
                let next = hs[n - 1];
                if next.page_size != hs[0].page_size {
                    Err(LtxError::InvalidPageSize(next.page_size))
                } else if !follows(prev, next) {
                    Err(
                        LtxError::UnexpectedPage {
                            expected: (prev.max_txid % 0x1_0000_0000) as u32,
                            got: (next.min_txid % 0x1_0000_0000) as u32,
                        },
                    )
                } else {
                    Ok(())
                }
            },
        }
    }
}

/// The header of the compaction of files with headers `hs`.
pub open spec fn compacted_header(hs: Seq<Header>) -> Header {
    Header {
        flags: HEADER_FLAG_NO_CHECKSUM,
        page_size: hs[0].page_size,
        commit: hs.last().commit,
        min_txid: hs[0].min_txid,
        max_txid: hs.last().max_txid,
        timestamp: hs.last().timestamp,
        pre_apply_checksum: Checksum(0),
        wal_offset: 0,
        wal_size: 0,
        wal_salt1: 0,
        wal_salt2: 0,
        node_id: 0,
    }
}

/// What compacting the files `bufs` gives: the header and the pages of the
/// output.
pub open spec fn compact_of(bufs: Seq<Seq<u8>>) -> Result<(Header, Seq<PageRec>), LtxError> {
    match compact_header_of(bufs) {
        Err(e) => Err(e),
        Ok(h) => match merge_of(bufs, h) {
            Err(e) => Err(e),
            Ok(ps) => Ok((h, ps)),
        },
    }
}

proof fn lemma_headers_error(bufs: Seq<Seq<u8>>, i: nat, n: nat)
    requires
        i <= n,
        headers_of(bufs, i) is Err,
    ensures
        headers_of(bufs, n) == headers_of(bufs, i),
    decreases n - i,
{
    if i < n {
        lemma_headers_error(bufs, i, (n - 1) as nat);
    }
}

proof fn lemma_chain_error(hs: Seq<Header>, i: nat, n: nat)
    requires
        i <= n,
        chain_of(hs, i) is Err,
    ensures
        chain_of(hs, n) == chain_of(hs, i),
    decreases n - i,
{
    if i < n {
        lemma_chain_error(hs, i, (n - 1) as nat);
    }
}

fn read_headers(inputs: &[&[u8]]) -> (r: Result<Vec<Header>, LtxError>)
    ensures
        match (r, headers_of(buffers(inputs@), inputs@.len())) {
            (Ok(v), Ok(s)) => v@ == s && v@.len() == inputs@.len(),
            (Err(e), Err(se)) => e == se,
            _ => false,
        },
{
    let ghost bufs = buffers(inputs@);
    let mut v: Vec<Header> = Vec::new();
    let mut i: usize = 0;
    while i < inputs.len()
        invariant
            i <= inputs@.len(),
            bufs == buffers(inputs@),
            v@.len() == i,
            headers_of(bufs, i as nat) == Ok::<Seq<Header>, LtxError>(v@),
        decreases inputs@.len() - i,
    {
        assert(bufs[i as int] == inputs@[i as int]@);
        match Header::decode(inputs[i]) {
            Ok(h) => v.push(h),
            Err(e) => {
                proof {
                    lemma_headers_error(bufs, (i + 1) as nat, inputs@.len());
                }
                return Err(e);
            },
        }
        i += 1;
    }
    Ok(v)
}

fn check_chain(hs: &Vec<Header>) -> (r: Result<(), LtxError>)
    requires
        hs@.len() > 0,
    ensures
        r == chain_of(hs@, hs@.len()),
{
    let page_size = hs[0].page_size;
    let mut i: usize = 1;
    while i < hs.len()
        invariant
            1 <= i <= hs@.len(),
            page_size == hs@[0].page_size,
            chain_of(hs@, i as nat) is Ok,
        decreases hs@.len() - i,
    {
        let prev = hs[i - 1];
        let next = hs[i];
        if next.page_size != page_size {
            proof {
                lemma_chain_error(hs@, (i + 1) as nat, hs@.len());
            }
            return Err(LtxError::InvalidPageSize(next.page_size));
        }
        if next.max_txid <= prev.max_txid || next.min_txid > prev.max_txid + 1 {
            proof {
                lemma_chain_error(hs@, (i + 1) as nat, hs@.len());
            }
            return Err(
                LtxError::UnexpectedPage {
                    expected: (prev.max_txid % 0x1_0000_0000) as u32,
                    got: (next.min_txid % 0x1_0000_0000) as u32,
                },
            );
        }
        i += 1;
    }
    Ok(())
}

/// The header of the compaction of the files `bufs`, where they chain.
pub open spec fn compact_header_of(bufs: Seq<Seq<u8>>) -> Result<Header, LtxError> {
    if bufs.len() == 0 {
        Err(LtxError::ShortBuffer { need: 1, got: 0 })
    } else {
        match headers_of(bufs, bufs.len()) {
            Err(e) => Err(e),
            Ok(hs) => match chain_of(hs, hs.len()) {
                Err(e) => Err(e),
                Ok(()) => Ok(compacted_header(hs)),
            },
        }
    }
}

/// The header of the compaction of `inputs`, which must be sorted ascending by TXID
/// and contiguous.
pub fn compact_header(inputs: &[&[u8]]) -> (r: Result<Header, LtxError>)
    ensures
        r == compact_header_of(buffers(inputs@)),
{
    if inputs.len() == 0 {
        return Err(LtxError::ShortBuffer { need: 1, got: 0 });
    }
    let headers = match read_headers(inputs) {
        Ok(v) => v,
        Err(e) => return Err(e),
    };
    match check_chain(&headers) {
        Ok(()) => {},
        Err(e) => return Err(e),
    }
    let first = headers[0];
    let last = headers[headers.len() - 1];
    Ok(
        Header {
            flags: HEADER_FLAG_NO_CHECKSUM,
            page_size: first.page_size,
            commit: last.commit,
            min_txid: first.min_txid,
            max_txid: last.max_txid,
            timestamp: last.timestamp,
            pre_apply_checksum: Checksum(0),
            wal_offset: 0,
            wal_size: 0,
            wal_salt1: 0,
            wal_salt2: 0,
            node_id: 0,
        },
    )
}

/// Compacts `inputs` (sorted ascending by TXID, contiguous) into one LTX file,
/// keeping only the latest version of each page. Returns the bytes of the file.
pub fn compact_to_writer(inputs: &[&[u8]]) -> (r: Result<Vec<u8>, LtxError>)
    ensures
        match (r, compact_of(buffers(inputs@))) {
            (Ok(out), Ok((h, ps))) => {
                &&& out@ == file_bytes(h, ps, Checksum(0))
                &&& file_of(out@) == Ok::<FileView, LtxError>(
                    FileView {
                        header: h,
                        pages: page_views(ps),
                        trailer: file_trailer(h, ps, Checksum(0)),
                    },
                )
            },
            (Err(e), Err(se)) => e == se,
            _ => false,
        },
{
    match compact_header(inputs) {
        Ok(header) => merge_to_writer(inputs, header),
        Err(e) => Err(e),
    }
}

/// Compacts `inputs` (LTX files, sorted ascending by TXID and contiguous) into
/// a single LTX file in memory.
pub fn compact(inputs: &[&[u8]]) -> (r: Result<Vec<u8>, LtxError>)
    ensures
        match (r, compact_of(buffers(inputs@))) {
            (Ok(out), Ok((h, ps))) => {
                &&& out@ == file_bytes(h, ps, Checksum(0))
                &&& file_of(out@) == Ok::<FileView, LtxError>(
                    FileView {
                        header: h,
                        pages: page_views(ps),
                        trailer: file_trailer(h, ps, Checksum(0)),
                    },
                )
            },
            (Err(e), Err(se)) => e == se,
            _ => false,
        },
{
    compact_to_writer(inputs)
}

/// The page numbers of an index ascend strictly, as the encoder writes them.
pub open spec fn ascending(es: Seq<PageIndexElem>) -> bool {
    forall|i: int, j: int| 0 <= i < j < es.len() ==> (#[trigger] es[i]).pgno < (#[trigger] es[j]).pgno
}

/// `(k, q)` names an entry at or after the cursors.
pub open spec fn entry_left(
    idx: Seq<Seq<PageIndexElem>>,
    cur: Seq<usize>,
    k: int,
    q: int,
) -> bool {
    0 <= k < idx.len() && cur[k] <= q < idx[k].len()
}

/// `w` is the latest of the entries at or after the cursors that share its page
/// number.
pub open spec fn latest_left(
    idx: Seq<Seq<PageIndexElem>>,
    cur: Seq<usize>,
    w: (int, int),
) -> bool {
    &&& entry_left(idx, cur, w.0, w.1)
    &&& forall|k: int, q: int|
        #[trigger] entry_left(idx, cur, k, q) && idx[k][q].pgno == idx[w.0][w.1].pgno ==> k <= w.0
}

/// Some winner has the page number `pgno`.
pub open spec fn wins(idx: Seq<Seq<PageIndexElem>>, ws: Seq<(int, int)>, pgno: u32) -> bool {
    exists|n: int| 0 <= n < ws.len() && idx[(#[trigger] ws[n]).0][ws[n].1].pgno == pgno
}

/// The page number of the entry `w`.
pub open spec fn pgno_at(idx: Seq<Seq<PageIndexElem>>, w: (int, int)) -> u32 {
    idx[w.0][w.1].pgno
}

/// Where every index ascends, each winner is the latest entry of its page, every page
/// of any index has a winner, and the winners ascend by page.
proof fn lemma_winners(idx: Seq<Seq<PageIndexElem>>, cur: Seq<usize>)
    requires
        idx.len() == cur.len(),
        forall|k: int| 0 <= k < idx.len() ==> ascending(#[trigger] idx[k]),
        forall|k: int| 0 <= k < idx.len() ==> (#[trigger] idx[k]).len() <= usize::MAX,
    ensures
        forall|n: int|
            0 <= n < winners(idx, cur).len() ==> latest_left(
                idx,
                cur,
                #[trigger] winners(idx, cur)[n],
            ),
        forall|k: int, q: int| #[trigger]
            entry_left(idx, cur, k, q) ==> wins(idx, winners(idx, cur), idx[k][q].pgno),
        forall|n: int, m: int|
            0 <= n < m < winners(idx, cur).len() ==> pgno_at(
                idx,
                #[trigger] winners(idx, cur)[n],
            ) < pgno_at(idx, #[trigger] winners(idx, cur)[m]),
    decreases left(idx, cur, idx.len()),
{
    lemma_first_head(idx, cur, idx.len());
    match first_head(idx, cur, idx.len()) {
        None => {
            assert forall|k: int, q: int| #[trigger] entry_left(idx, cur, k, q) implies false by {
                assert(has_head(idx, cur, k));
            }
        },
        Some(i) => {
            let next = bumped(cur, i);
            let p = head_pgno(idx, cur, i);
            lemma_left_shrinks(idx, cur, i, idx.len());
            lemma_winners(idx, next);
            lemma_first_head(idx, next, idx.len());
            let rest = winners(idx, next);
            let all = winners(idx, cur);
            // Every entry left has a page number of at least `p`.
            assert forall|k: int, q: int| #[trigger] entry_left(idx, cur, k, q) implies idx[k][q].pgno
                >= p && (idx[k][q].pgno == p ==> i <= k && q == cur[k]) by {
                assert(has_head(idx, cur, k));
                assert(ascending(idx[k]));
                if q > cur[k] {
                    assert(idx[k][cur[k] as int].pgno < idx[k][q].pgno);
                }
            }
            // The entries left after the step are those left before, but one.
            assert forall|k: int, q: int|
                entry_left(idx, cur, k, q) && !(k == i && q == cur[i]) implies #[trigger] entry_left(
                idx,
                next,
                k,
                q,
            ) by {}
            assert forall|k: int, q: int| #[trigger] entry_left(idx, next, k, q) implies entry_left(
                idx,
                cur,
                k,
                q,
            ) && !(k == i && q == cur[i]) by {}
            let superseded = match first_head(idx, next, idx.len()) {
                Some(j) => head_pgno(idx, next, j) == p,
                None => false,
            };
            if superseded {
                let j = first_head(idx, next, idx.len())->0;
                assert(entry_left(idx, next, j, next[j] as int));
                assert(entry_left(idx, cur, j, next[j] as int));
                assert(j != i);
                assert(all == rest);
                assert forall|n: int| 0 <= n < all.len() implies latest_left(
                    idx,
                    cur,
                    #[trigger] all[n],
                ) by {
                    let w = rest[n];
                    assert(latest_left(idx, next, w));
                    assert forall|k: int, q: int| #[trigger]
                        entry_left(idx, cur, k, q) && idx[k][q].pgno == idx[w.0][w.1].pgno implies k
                        <= w.0 by {
                        if k == i && q == cur[i] {
                            assert(entry_left(idx, next, j, next[j] as int));
                        } else {
                            assert(entry_left(idx, next, k, q));
                        }
                    }
                }
                assert forall|k: int, q: int| #[trigger] entry_left(idx, cur, k, q) implies wins(
                    idx,
                    all,
                    idx[k][q].pgno,
                ) by {
                    if k == i && q == cur[i] {
                        assert(entry_left(idx, next, j, next[j] as int));
                    } else {
                        assert(entry_left(idx, next, k, q));
                    }
                }
            } else {
                assert(all == seq![(i, cur[i] as int)] + rest);
                assert forall|k: int, q: int| #[trigger] entry_left(idx, next, k, q) implies idx[k][q].pgno
                    != p by {
                    assert(has_head(idx, next, k));
                    let j = first_head(idx, next, idx.len())->0;
                    assert(head_pgno(idx, next, j) <= head_pgno(idx, next, k));
                    assert(entry_left(idx, next, j, next[j] as int));
                    assert(ascending(idx[k]));
                    if q > next[k] {
                        assert(idx[k][next[k] as int].pgno < idx[k][q].pgno);
                    }
                }
                assert forall|n: int| 0 <= n < all.len() implies latest_left(
                    idx,
                    cur,
                    #[trigger] all[n],
                ) by {
                    if n == 0 {
                        assert(entry_left(idx, cur, i, cur[i] as int));
                        assert forall|k: int, q: int| #[trigger]
                            entry_left(idx, cur, k, q) && idx[k][q].pgno == p implies k <= i by {
                            if !(k == i && q == cur[i]) {
                                assert(entry_left(idx, next, k, q));
                            }
                        }
                    } else {
                        let w = rest[n - 1];
                        assert(all[n] == w);
                        assert(latest_left(idx, next, w));
                        assert(entry_left(idx, next, w.0, w.1));
                        assert forall|k: int, q: int| #[trigger]
                            entry_left(idx, cur, k, q) && idx[k][q].pgno == idx[w.0][w.1].pgno implies k
                            <= w.0 by {
                            if !(k == i && q == cur[i]) {
                                assert(entry_left(idx, next, k, q));
                            }
                        }
                    }
                }
                assert forall|n: int, m: int| 0 <= n < m < all.len() implies pgno_at(
                    idx,
                    #[trigger] all[n],
                ) < pgno_at(idx, #[trigger] all[m]) by {
                    assert(all[m] == rest[m - 1]);
                    if n == 0 {
                        let w = rest[m - 1];
                        assert(latest_left(idx, next, w));
                        assert(entry_left(idx, next, w.0, w.1));
                        assert(entry_left(idx, cur, w.0, w.1));
                    } else {
                        assert(all[n] == rest[n - 1]);
                    }
                }
                assert forall|k: int, q: int| #[trigger] entry_left(idx, cur, k, q) implies wins(
                    idx,
                    all,
                    idx[k][q].pgno,
                ) by {
                    if k == i && q == cur[i] {
                        assert(all[0] == (i, cur[i] as int));
                    } else {
                        assert(entry_left(idx, next, k, q));
                        assert(wins(idx, rest, idx[k][q].pgno));
                        let n = choose|n: int|
                            0 <= n < rest.len() && idx[(#[trigger] rest[n]).0][rest[n].1].pgno
                                == idx[k][q].pgno;
                        assert(all[n + 1] == rest[n]);
                    }
                }
            }
        },
    }
}

/// The entries of the index of the file `b`, where it has one.
pub open spec fn index_in(b: Seq<u8>) -> Seq<PageIndexElem> {
    page_index_of(b)->Ok_0
}

/// Input `k` carries the page `pgno`, with the data `d`.
pub open spec fn carries(bufs: Seq<Seq<u8>>, page_size: nat, k: int, pgno: u32, d: Seq<u8>) -> bool {
    &&& page_index_of(bufs[k]) is Ok
    &&& exists|q: int|
        {
            &&& 0 <= q < index_in(bufs[k]).len()
            &&& (#[trigger] index_in(bufs[k])[q]).pgno == pgno
            &&& indexed_page_of(bufs[k], index_in(bufs[k])[q], page_size) is Ok
            &&& indexed_page_of(bufs[k], index_in(bufs[k])[q], page_size)->Ok_0.1 == d
        }
}

/// Input `k` lists the page `pgno` in its index.
pub open spec fn lists(bufs: Seq<Seq<u8>>, k: int, pgno: u32) -> bool {
    &&& page_index_of(bufs[k]) is Ok
    &&& exists|q: int|
        0 <= q < index_in(bufs[k]).len() && (#[trigger] index_in(bufs[k])[q]).pgno == pgno
}

/// Every input has an index that ascends, as the encoder writes it.
pub open spec fn sound_inputs(bufs: Seq<Seq<u8>>) -> bool {
    forall|k: int|
        0 <= k < bufs.len() ==> (#[trigger] bufs[k]).len() <= usize::MAX && (page_index_of(
            bufs[k],
        ) matches Ok(es) ==> ascending(es))
}

proof fn lemma_indexes_elements(bufs: Seq<Seq<u8>>, n: nat)
    requires
        n <= bufs.len(),
        indexes_of(bufs, n) is Ok,
    ensures
        indexes_of(bufs, n)->Ok_0.len() == n,
        forall|k: int|
            0 <= k < n ==> page_index_of(bufs[k]) == Ok::<Seq<PageIndexElem>, LtxError>(
                #[trigger] indexes_of(bufs, n)->Ok_0[k],
            ),
    decreases n,
{
    if n > 0 {
        lemma_indexes_elements(bufs, (n - 1) as nat);
    }
}

/// The winner `w` is the source of the output page `p`.
spec fn source_of(
    bufs: Seq<Seq<u8>>,
    idx: Seq<Seq<PageIndexElem>>,
    h: Header,
    w: (int, int),
    p: PageRec,
) -> bool {
    &&& idx[w.0][w.1].pgno == p.pgno
    &&& p.pgno <= h.commit
    &&& indexed_page_of(bufs[w.0], idx[w.0][w.1], h.page_size as nat) is Ok
    &&& indexed_page_of(bufs[w.0], idx[w.0][w.1], h.page_size as nat)->Ok_0.1 == p.data
}

proof fn lemma_merged_sources(
    bufs: Seq<Seq<u8>>,
    idx: Seq<Seq<PageIndexElem>>,
    h: Header,
    ws: Seq<(int, int)>,
    n: nat,
)
    requires
        n <= ws.len(),
        merged_pages(bufs, idx, h, ws, n) is Ok,
    ensures
        ({
            let ps = merged_pages(bufs, idx, h, ws, n)->Ok_0;
            &&& forall|m: int|
                0 <= m < ps.len() ==> exists|w: int|
                    0 <= w < n && source_of(bufs, idx, h, #[trigger] ws[w], #[trigger] ps[m])
            &&& forall|w: int|
                0 <= w < n && idx[(#[trigger] ws[w]).0][ws[w].1].pgno <= h.commit ==> exists|m: int|
                    0 <= m < ps.len() && (#[trigger] ps[m]).pgno == idx[ws[w].0][ws[w].1].pgno
        }),
    decreases n,
{
    if n > 0 {
        lemma_merged_sources(bufs, idx, h, ws, (n - 1) as nat);
        let before = merged_pages(bufs, idx, h, ws, (n - 1) as nat)->Ok_0;
        let ps = merged_pages(bufs, idx, h, ws, n)->Ok_0;
        let last = ws[n - 1];
        let e = idx[last.0][last.1];
        assert forall|m: int| 0 <= m < ps.len() implies exists|w: int|
            0 <= w < n && source_of(bufs, idx, h, #[trigger] ws[w], #[trigger] ps[m]) by {
            if m < before.len() {
                assert(ps[m] == before[m]);
                let w = choose|w: int|
                    0 <= w < n - 1 && source_of(bufs, idx, h, #[trigger] ws[w], before[m]);
                assert(source_of(bufs, idx, h, ws[w], ps[m]));
            } else {
                assert(source_of(bufs, idx, h, ws[n - 1], ps[m]));
            }
        }
        assert forall|w: int|
            0 <= w < n && idx[(#[trigger] ws[w]).0][ws[w].1].pgno <= h.commit implies exists|m: int|
            0 <= m < ps.len() && (#[trigger] ps[m]).pgno == idx[ws[w].0][ws[w].1].pgno by {
            if w < n - 1 {
                let m = choose|m: int|
                    0 <= m < before.len() && (#[trigger] before[m]).pgno
                        == idx[ws[w].0][ws[w].1].pgno;
                assert(ps[m] == before[m]);
            } else {
                assert(ps.last().pgno == e.pgno);
            }
        }
    }
}

/// Input `k` carries the page `p`, and no later input lists it.
pub open spec fn latest_carrier(bufs: Seq<Seq<u8>>, page_size: nat, k: int, p: PageRec) -> bool {
    &&& 0 <= k < bufs.len()
    &&& carries(bufs, page_size, k, p.pgno, p.data)
    &&& forall|later: int| k < later < bufs.len() ==> !#[trigger] lists(bufs, later, p.pgno)
}

proof fn lemma_source_is_latest(
    bufs: Seq<Seq<u8>>,
    idx: Seq<Seq<PageIndexElem>>,
    h: Header,
    w: (int, int),
    p: PageRec,
)
    requires
        idx.len() == bufs.len(),
        forall|k: int|
            0 <= k < bufs.len() ==> page_index_of(#[trigger] bufs[k]) == Ok::<
                Seq<PageIndexElem>,
                LtxError,
            >(idx[k]),
        latest_left(idx, at_start(idx.len()), w),
        source_of(bufs, idx, h, w, p),
    ensures
        latest_carrier(bufs, h.page_size as nat, w.0, p),
{
    let cur = at_start(idx.len());
    let k = w.0;
    assert(entry_left(idx, cur, w.0, w.1));
    assert(index_in(bufs[k]) == idx[k]);
    assert(index_in(bufs[k])[w.1].pgno == p.pgno);
    assert forall|later: int| k < later < bufs.len() implies !#[trigger] lists(
        bufs,
        later,
        p.pgno,
    ) by {
        assert(index_in(bufs[later]) == idx[later]);
        if lists(bufs, later, p.pgno) {
            let q = choose|q: int|
                0 <= q < index_in(bufs[later]).len() && (#[trigger] index_in(bufs[later])[q]).pgno
                    == p.pgno;
            assert(entry_left(idx, cur, later, q));
        }
    }
}

proof fn lemma_sound_indexes(bufs: Seq<Seq<u8>>)
    requires
        sound_inputs(bufs),
        indexes_of(bufs, bufs.len()) is Ok,
    ensures
        ({
            let idx = indexes_of(bufs, bufs.len())->Ok_0;
            &&& idx.len() == bufs.len()
            &&& forall|k: int|
                0 <= k < bufs.len() ==> page_index_of(#[trigger] bufs[k]) == Ok::<
                    Seq<PageIndexElem>,
                    LtxError,
                >(idx[k])
            &&& forall|k: int| 0 <= k < idx.len() ==> ascending(#[trigger] idx[k])
            &&& forall|k: int| 0 <= k < idx.len() ==> (#[trigger] idx[k]).len() <= usize::MAX
        }),
{
    let idx = indexes_of(bufs, bufs.len())->Ok_0;
    lemma_indexes_elements(bufs, bufs.len());
    assert forall|k: int| 0 <= k < bufs.len() implies page_index_of(#[trigger] bufs[k]) == Ok::<
        Seq<PageIndexElem>,
        LtxError,
    >(idx[k]) by {
        assert(idx[k] == indexes_of(bufs, bufs.len())->Ok_0[k]);
    }
    assert forall|k: int| 0 <= k < idx.len() implies ascending(#[trigger] idx[k]) by {
        assert(page_index_of(bufs[k]) == Ok::<Seq<PageIndexElem>, LtxError>(idx[k]));
    }
    assert forall|k: int| 0 <= k < idx.len() implies (#[trigger] idx[k]).len() <= usize::MAX by {
        let b = bufs[k];
        assert(page_index_of(b) == Ok::<Seq<PageIndexElem>, LtxError>(idx[k]));
        reveal(page_index_of);
        let start = index_start(b)->Ok_0;
        lemma_index_len(b.subrange(start, b.len() - INDEX_FOOTER_SIZE as int));
    }
}

/// A merge keeps the latest version of each page and nothing else: every page of
/// the output stands as the last input that lists it carries it, no page lies
/// beyond the commit size, and every listed page within the commit size is there.
pub proof fn lemma_merge_keeps_latest(bufs: Seq<Seq<u8>>, h: Header)
    requires
        sound_inputs(bufs),
        merge_of(bufs, h) is Ok,
    ensures
        ({
            let ps = merge_of(bufs, h)->Ok_0;
            &&& forall|m: int|
                0 <= m < ps.len() ==> (#[trigger] ps[m]).pgno <= h.commit && exists|k: int|
                    latest_carrier(bufs, h.page_size as nat, k, ps[m])
            &&& forall|k: int, pgno: u32|
                0 <= k < bufs.len() && pgno <= h.commit && #[trigger] lists(bufs, k, pgno)
                    ==> exists|m: int| 0 <= m < ps.len() && (#[trigger] ps[m]).pgno == pgno
        }),
{
    let idx = indexes_of(bufs, bufs.len())->Ok_0;
    let cur = at_start(idx.len());
    let ws = winners(idx, cur);
    let ps = merge_of(bufs, h)->Ok_0;
    lemma_sound_indexes(bufs);
    lemma_winners(idx, cur);
    lemma_merged_sources(bufs, idx, h, ws, ws.len());
    assert forall|m: int| 0 <= m < ps.len() implies (#[trigger] ps[m]).pgno <= h.commit && exists|
        k: int,
    | latest_carrier(bufs, h.page_size as nat, k, ps[m]) by {
        let w = choose|w: int|
            0 <= w < ws.len() && source_of(bufs, idx, h, #[trigger] ws[w], ps[m]);
        assert(latest_left(idx, cur, ws[w]));
        lemma_source_is_latest(bufs, idx, h, ws[w], ps[m]);
    }
    assert forall|k: int, pgno: u32|
        0 <= k < bufs.len() && pgno <= h.commit && #[trigger] lists(bufs, k, pgno) implies exists|
        m: int,
    | 0 <= m < ps.len() && (#[trigger] ps[m]).pgno == pgno by {
        assert(index_in(bufs[k]) == idx[k]);
        let q = choose|q: int|
            0 <= q < index_in(bufs[k]).len() && (#[trigger] index_in(bufs[k])[q]).pgno == pgno;
        assert(entry_left(idx, cur, k, q));
        assert(wins(idx, ws, pgno));
        let w = choose|w: int| 0 <= w < ws.len() && idx[(#[trigger] ws[w]).0][ws[w].1].pgno == pgno;
        assert(idx[ws[w].0][ws[w].1].pgno <= h.commit);
    }
}

/// The pages that the first `n` winners put into the output all get in, and the last
/// of them is the last winner within the commit size.
proof fn lemma_winners_are_admitted(
    bufs: Seq<Seq<u8>>,
    idx: Seq<Seq<PageIndexElem>>,
    h: Header,
    ws: Seq<(int, int)>,
    n: nat,
)
    requires
        n <= ws.len(),
        header_validity(h) is Ok,
        forall|i: int, j: int|
            0 <= i < j < ws.len() ==> pgno_at(idx, #[trigger] ws[i]) < pgno_at(
                idx,
                #[trigger] ws[j],
            ),
        forall|i: int|
            0 <= i < ws.len() && pgno_at(idx, #[trigger] ws[i]) <= h.commit ==> {
                &&& pgno_at(idx, ws[i]) >= 1
                &&& pgno_at(idx, ws[i]) != lock_page(h.page_size)
                &&& indexed_page_of(bufs[ws[i].0], idx[ws[i].0][ws[i].1], h.page_size as nat) is Ok
            },
        h.min_txid == 1 ==> forall|p: u32, i: int|
            0 <= i < ws.len() && 1 <= p < pgno_at(idx, #[trigger] ws[i]) <= h.commit && p
                != lock_page(h.page_size) ==> #[trigger] wins(idx, ws, p),
    ensures
        merged_pages(bufs, idx, h, ws, n) is Ok,
        ({
            let last = last_pgno(merged_pages(bufs, idx, h, ws, n)->Ok_0);
            &&& forall|i: int|
                0 <= i < n && pgno_at(idx, #[trigger] ws[i]) <= h.commit ==> pgno_at(idx, ws[i])
                    <= last
            &&& forall|i: int|
                n <= i < ws.len() && pgno_at(idx, #[trigger] ws[i]) <= h.commit ==> last < pgno_at(
                    idx,
                    ws[i],
                )
        }),
    decreases n,
{
    reveal(encode_page_result);
    if n > 0 {
        let m = (n - 1) as nat;
        lemma_winners_are_admitted(bufs, idx, h, ws, m);
        let ps = merged_pages(bufs, idx, h, ws, m)->Ok_0;
        let w = ws[m as int];
        let g = pgno_at(idx, w);
        if g <= h.commit {
            let prev = last_pgno(ps);
            let (_, d) = indexed_page_of(bufs[w.0], idx[w.0][w.1], h.page_size as nat)->Ok_0;
            lemma_indexed_page_len(bufs[w.0], idx[w.0][w.1], h.page_size as nat);
            if h.min_txid == 1 {
                let sz = h.page_size as int;
                assert(0x4000_0000int / sz >= 1 && 0x4000_0000int / sz <= 0x4000_0000)
                    by (nonlinear_arith)
                    requires
                        1 <= sz <= 65536,
                ;
                let s = snapshot_successor(h.page_size, prev);
                if s < g {
                    let p = s as u32;
                    assert(wins(idx, ws, p));
                    let i = choose|i: int|
                        0 <= i < ws.len() && idx[(#[trigger] ws[i]).0][ws[i].1].pgno == p;
                    assert(pgno_at(idx, ws[i]) == p);
                    assert(i < m);
                }
            }
            assert(encode_page_result(h, prev, g, d) is Ok);
        }
    }
}

/// A merge succeeds where the indexes of its inputs can be read and ascend, the pages
/// that they list within the commit size can be read, and the output is to be no
/// snapshot, or every page before a listed one is listed.
pub proof fn lemma_merge_succeeds(bufs: Seq<Seq<u8>>, h: Header)
    requires
        sound_inputs(bufs),
        header_validity(h) is Ok,
        forall|k: int| 0 <= k < bufs.len() ==> page_index_of(#[trigger] bufs[k]) is Ok,
        forall|k: int, q: int|
            0 <= k < bufs.len() && 0 <= q < index_in(bufs[k]).len() && (#[trigger] index_in(
                bufs[k],
            )[q]).pgno <= h.commit ==> {
                &&& index_in(bufs[k])[q].pgno >= 1
                &&& index_in(bufs[k])[q].pgno != lock_page(h.page_size)
                &&& indexed_page_of(bufs[k], index_in(bufs[k])[q], h.page_size as nat) is Ok
            },
        h.min_txid == 1 ==> forall|p: u32, q: u32|
            1 <= p < q <= h.commit && p != lock_page(h.page_size) && #[trigger] listed(bufs, q)
                ==> #[trigger] listed(bufs, p),
    ensures
        merge_of(bufs, h) is Ok,
{
    lemma_indexes_succeed(bufs, bufs.len());
    lemma_sound_indexes(bufs);
    let idx = indexes_of(bufs, bufs.len())->Ok_0;
    let cur = at_start(idx.len());
    let ws = winners(idx, cur);
    lemma_winners(idx, cur);
    assert forall|i: int|
        0 <= i < ws.len() && pgno_at(idx, #[trigger] ws[i]) <= h.commit implies {
        &&& pgno_at(idx, ws[i]) >= 1
        &&& pgno_at(idx, ws[i]) != lock_page(h.page_size)
        &&& indexed_page_of(bufs[ws[i].0], idx[ws[i].0][ws[i].1], h.page_size as nat) is Ok
    } by {
        let w = ws[i];
        assert(latest_left(idx, cur, ws[i]));
        assert(entry_left(idx, cur, w.0, w.1));
        assert(index_in(bufs[w.0]) == idx[w.0]);
        assert(index_in(bufs[w.0])[w.1].pgno == pgno_at(idx, w));
    }
    if h.min_txid == 1 {
        assert forall|p: u32, i: int|
            0 <= i < ws.len() && 1 <= p < pgno_at(idx, #[trigger] ws[i]) <= h.commit && p
                != lock_page(h.page_size) implies #[trigger] wins(idx, ws, p) by {
            let w = ws[i];
            assert(latest_left(idx, cur, ws[i]));
            assert(entry_left(idx, cur, w.0, w.1));
            assert(index_in(bufs[w.0]) == idx[w.0]);
            let next = pgno_at(idx, w);
            assert(index_in(bufs[w.0])[w.1].pgno == next);
            assert(lists(bufs, w.0, next));
            assert(listed(bufs, next));
            assert(listed(bufs, p));
            let k = choose|k: int| 0 <= k < bufs.len() && lists(bufs, k, p);
            assert(index_in(bufs[k]) == idx[k]);
            let q = choose|q: int|
                0 <= q < index_in(bufs[k]).len() && (#[trigger] index_in(bufs[k])[q]).pgno == p;
            assert(entry_left(idx, cur, k, q));
        }
    }
    lemma_winners_are_admitted(bufs, idx, h, ws, ws.len());
}

/// Some input lists the page `p`.
pub open spec fn listed(bufs: Seq<Seq<u8>>, p: u32) -> bool {
    exists|k: int| 0 <= k < bufs.len() && lists(bufs, k, p)
}

proof fn lemma_indexes_succeed(bufs: Seq<Seq<u8>>, n: nat)
    requires
        n <= bufs.len(),
        forall|k: int| 0 <= k < bufs.len() ==> page_index_of(#[trigger] bufs[k]) is Ok,
    ensures
        indexes_of(bufs, n) is Ok,
    decreases n,
{
    if n > 0 {
        lemma_indexes_succeed(bufs, (n - 1) as nat);
        assert(page_index_of(bufs[n - 1]) is Ok);
    }
}

/// A compaction is refused unless every input continues the one before it: with
/// a gap between two inputs there is no output.
pub proof fn lemma_compact_needs_contiguity(bufs: Seq<Seq<u8>>, i: int)
    requires
        1 <= i < bufs.len(),
        header_of(bufs[i - 1]) matches Ok(prev) && header_of(bufs[i]) matches Ok(next) && !follows(
            prev,
            next,
        ),
    ensures
        compact_of(bufs) is Err,
{
    if let Ok(hs) = headers_of(bufs, bufs.len()) {
        lemma_headers_elements(bufs, bufs.len());
        assert(header_of(bufs[i - 1]) == Ok::<Header, LtxError>(hs[i - 1]));
        assert(header_of(bufs[i]) == Ok::<Header, LtxError>(hs[i]));
        if chain_of(hs, hs.len()) is Ok {
            lemma_chain_prefix(hs, (i + 1) as nat, hs.len());
        }
    }
}

proof fn lemma_chain_prefix(hs: Seq<Header>, i: nat, n: nat)
    requires
        i <= n,
        chain_of(hs, n) is Ok,
    ensures
        chain_of(hs, i) is Ok,
    decreases n,
{
    if i < n {
        if n > 1 {
            lemma_chain_prefix(hs, i, (n - 1) as nat);
        }
    }
}

proof fn lemma_headers_elements(bufs: Seq<Seq<u8>>, n: nat)
    requires
        n <= bufs.len(),
        headers_of(bufs, n) is Ok,
    ensures
        headers_of(bufs, n)->Ok_0.len() == n,
        forall|k: int|
            0 <= k < n ==> header_of(bufs[k]) == Ok::<Header, LtxError>(
                #[trigger] headers_of(bufs, n)->Ok_0[k],
            ),
    decreases n,
{
    if n > 0 {
        lemma_headers_elements(bufs, (n - 1) as nat);
    }
}

/// A file that was written with valid pages has an index that ascends, so it is
/// a sound input of a merge.
pub proof fn lemma_written_is_sound(h: Header, ps: Seq<PageRec>, post: Checksum)
    requires
        valid_page_size(h.page_size),
        admissible(h, ps),
        file_bytes(h, ps, post).len() <= u64::MAX,
    ensures
        page_index_of(file_bytes(h, ps, post)) == Ok::<Seq<PageIndexElem>, LtxError>(entries(ps)),
        ascending(entries(ps)),
{
    lemma_index_read_back(h, ps, post);
    assert forall|i: int, j: int| 0 <= i < j < entries(ps).len() implies (#[trigger] entries(
        ps,
    )[i]).pgno < (#[trigger] entries(ps)[j]).pgno by {
        lemma_admissible_ascends(h, ps, i, j);
    }
}

proof fn lemma_admissible_ascends(h: Header, ps: Seq<PageRec>, i: int, j: int)
    requires
        admissible(h, ps),
        0 <= i < j < ps.len(),
    ensures
        ps[i].pgno < ps[j].pgno,
    decreases ps.len(),
{
    if j < ps.len() - 1 {
        lemma_admissible_ascends(h, ps.drop_last(), i, j);
    } else if i < j - 1 {
        lemma_admissible_ascends(h, ps.drop_last(), i, j - 1);
        assert(ps.drop_last().last() == ps[j - 1]);
    } else {
        assert(ps.drop_last().last() == ps[i]);
    }
}

} // verus!
