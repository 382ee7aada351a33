//! A fail-safe reader over SQLite WAL bytes.
//!
//! Reading verifies the salt and running checksum of every frame and stops at
//! the first torn tail, salt change (a new WAL generation), or checksum
//! failure. It does *not* enforce transaction boundaries;
//! [`WalReader::page_map`] does that.

use crate::ltx::format::valid_page_size;
use crate::wal::error::WalError;
use crate::wal::format::{
    WAL_FRAME_HEADER_SIZE, WAL_HEADER_SIZE, WalFrameHeader, WalHeader, frame_header_of,
    wal_checksum, wal_header_of, wal_sum,
};
use std::collections::HashMap;
use vstd::arithmetic::div_mod::lemma_small_mod;
use vstd::prelude::*;
use vstd::slice::slice_subrange;

verus! {

broadcast use vstd::std_specs::hash::group_hash_axioms;

/// A validated WAL frame.
#[verifier::ext_equal]
pub struct FrameView {
    pub pgno: u32,
    pub commit: u32,
    pub offset: u64,
    pub data: Seq<u8>,
}

/// The size of a frame: its header and one page.
pub open spec fn frame_size(page_size: u32) -> int {
    WAL_FRAME_HEADER_SIZE + page_size
}

/// The checksum of the frame that spans `f`, after the state `chk`.
pub open spec fn frame_sum(h: WalHeader, chk: (u32, u32), f: Seq<u8>) -> (u32, u32) {
    wal_sum(h.byte_order, wal_sum(h.byte_order, chk, f.take(8)), f.skip(24))
}

/// The frame at `pos` of `data` (whose first byte stands at offset `base` of the
/// WAL), if it is whole, of this generation, and continues the checksum `chk`.
pub open spec fn frame_at(
    data: Seq<u8>,
    h: WalHeader,
    base: int,
    pos: int,
    chk: (u32, u32),
) -> Option<FrameView> {
    let end = pos + frame_size(h.page_size);
    if end > data.len() {
        None
    } else {
        let f = data.subrange(pos, end);
        let fh = frame_header_of(f);
        if fh.salt1 != h.salt1 || fh.salt2 != h.salt2 {
            None
        } else if frame_sum(h, chk, f) != (fh.checksum1, fh.checksum2) {
            None
        } else {
            Some(
                FrameView {
                    pgno: fh.pgno,
                    commit: fh.commit,
                    offset: (base + pos) as u64,
                    data: f.skip(24),
                },
            )
        }
    }
}

/// The checksum state after the frame at `pos`.
pub open spec fn sum_after(data: Seq<u8>, h: WalHeader, pos: int, chk: (u32, u32)) -> (u32, u32) {
    frame_sum(h, chk, data.subrange(pos, pos + frame_size(h.page_size)))
}

/// The valid frames of `data` from `pos` on.
pub open spec fn frames_from(
    data: Seq<u8>,
    h: WalHeader,
    base: int,
    pos: int,
    chk: (u32, u32),
) -> Seq<FrameView>
    decreases data.len() - pos,
{
    match frame_at(data, h, base, pos, chk) {
        None => Seq::empty(),
        Some(f) => seq![f] + frames_from(
            data,
            h,
            base,
            pos + frame_size(h.page_size),
            sum_after(data, h, pos, chk),
        ),
    }
}

/// How many of the frames `fs` are committed: those up to the last commit frame.
pub open spec fn committed(fs: Seq<FrameView>) -> nat
    decreases fs.len(),
{
    if fs.len() == 0 {
        0
    } else if fs.last().commit != 0 {
        fs.len()
    } else {
        committed(fs.drop_last())
    }
}

/// The database size, in pages, at the last commit of `fs`.
pub open spec fn final_commit(fs: Seq<FrameView>) -> u32 {
    if committed(fs) == 0 {
        0
    } else {
        fs[committed(fs) - 1].commit
    }
}

/// The offset of the newest frame of each page up to `commit`.
pub open spec fn newest_offsets(fs: Seq<FrameView>, commit: u32) -> Map<u32, u64>
    decreases fs.len(),
{
    if fs.len() == 0 {
        Map::empty()
    } else {
        let before = newest_offsets(fs.drop_last(), commit);
        if fs.last().pgno <= commit {
            before.insert(fs.last().pgno, fs.last().offset)
        } else {
            before
        }
    }
}

/// The committed pages of the frames `fs`: the newest committed frame of each
/// page that the final commit size keeps.
pub open spec fn committed_pages(fs: Seq<FrameView>) -> Map<u32, u64> {
    newest_offsets(fs.take(committed(fs) as int), final_commit(fs))
}

/// The end of the last of the frames `fs` whose page `commit` keeps, or 0.
pub open spec fn kept_end(fs: Seq<FrameView>, commit: u32, page_size: u32) -> int
    decreases fs.len(),
{
    if fs.len() == 0 {
        0
    } else if fs.last().pgno <= commit {
        fs.last().offset + frame_size(page_size)
    } else {
        kept_end(fs.drop_last(), commit, page_size)
    }
}

/// The end of the last committed frame of `fs` whose page the final commit size
/// keeps, or 0.
pub open spec fn committed_end(fs: Seq<FrameView>, page_size: u32) -> int {
    kept_end(fs.take(committed(fs) as int), final_commit(fs), page_size)
}

/// `end` is the end of the highest frame in `pages`, or 0 where there is none.
pub open spec fn is_end_offset(pages: Map<u32, u64>, page_size: u32, end: u64) -> bool {
    if pages.dom() =~= Set::empty() {
        end == 0
    } else {
        &&& exists|p: u32| pages.dom().contains(p) && #[trigger] pages[p] + frame_size(page_size) == end
        &&& forall|p: u32| #![trigger pages[p]]
            pages.dom().contains(p) ==> pages[p] + frame_size(page_size) <= end
    }
}

/// Where a reader that starts at `offset` must have its offset: at a frame
/// boundary.
pub open spec fn aligned(page_size: u32, offset: u64) -> bool {
    offset >= WAL_HEADER_SIZE && (offset - WAL_HEADER_SIZE) % frame_size(page_size) == 0
}

/// The checksum state before the frame at `offset` of the WAL `data`.
pub open spec fn seed_at(data: Seq<u8>, h: WalHeader, offset: u64) -> Result<(u32, u32), WalError> {
    if !aligned(h.page_size, offset) {
        Err(WalError::UnalignedOffset(offset))
    } else if offset == WAL_HEADER_SIZE {
        Ok((h.checksum1, h.checksum2))
    } else {
        let prev = offset - frame_size(h.page_size);
        if prev + WAL_FRAME_HEADER_SIZE > data.len() {
            Err(WalError::PrevFrameMismatch)
        } else {
            let fh = frame_header_of(data.subrange(prev, prev + WAL_FRAME_HEADER_SIZE));
            if fh.salt1 != h.salt1 || fh.salt2 != h.salt2 {
                Err(WalError::PrevFrameMismatch)
            } else {
                Ok((fh.checksum1, fh.checksum2))
            }
        }
    }
}

/// Bytes after which the next frame is not valid change nothing: the frames of
/// a WAL are those of the WAL with such bytes appended.
pub proof fn lemma_trailing_garbage(
    data: Seq<u8>,
    junk: Seq<u8>,
    h: WalHeader,
    base: int,
    pos: int,
    chk: (u32, u32),
)
    requires
        0 <= pos,
        stops(data, junk, h, base, pos, chk),
    ensures
        frames_from(data + junk, h, base, pos, chk) == frames_from(data, h, base, pos, chk),
    decreases data.len() - pos,
{
    let end = pos + frame_size(h.page_size);
    if end <= data.len() {
        assert((data + junk).subrange(pos, end) =~= data.subrange(pos, end));
        if frame_at(data, h, base, pos, chk) is Some {
            lemma_trailing_garbage(data, junk, h, base, end, sum_after(data, h, pos, chk));
        }
    }
}

/// Where the valid frames of `data` end, `data` followed by `junk` has no valid
/// frame either.
pub open spec fn stops(
    data: Seq<u8>,
    junk: Seq<u8>,
    h: WalHeader,
    base: int,
    pos: int,
    chk: (u32, u32),
) -> bool
    decreases data.len() - pos,
{
    match frame_at(data, h, base, pos, chk) {
        None => frame_at(data + junk, h, base, pos, chk) is None,
        Some(_) => stops(
            data,
            junk,
            h,
            base,
            pos + frame_size(h.page_size),
            sum_after(data, h, pos, chk),
        ),
    }
}

/// Frames after the last commit do not count: appending uncommitted frames
/// leaves the committed pages and the commit size as they were.
pub proof fn lemma_uncommitted_dropped(fs: Seq<FrameView>, more: Seq<FrameView>)
    requires
        forall|i: int| 0 <= i < more.len() ==> (#[trigger] more[i]).commit == 0,
    ensures
        committed(fs + more) == committed(fs),
        final_commit(fs + more) == final_commit(fs),
        committed_pages(fs + more) == committed_pages(fs),
    decreases more.len(),
{
    lemma_committed_bound(fs);
    if more.len() == 0 {
        assert(fs + more =~= fs);
    } else {
        lemma_uncommitted_dropped(fs, more.drop_last());
        assert((fs + more).drop_last() =~= fs + more.drop_last());
        assert(more.last() == more[more.len() - 1]);
        let n = committed(fs) as int;
        assert((fs + more).take(n) =~= fs.take(n));
        if n > 0 {
            assert((fs + more)[n - 1] == fs[n - 1]);
        }
    }
}

pub proof fn lemma_committed_bound(fs: Seq<FrameView>)
    ensures
        committed(fs) <= fs.len(),
        committed(fs) > 0 ==> fs[committed(fs) - 1].commit != 0,
        forall|i: int| committed(fs) <= i < fs.len() ==> (#[trigger] fs[i]).commit == 0,
    decreases fs.len(),
{
    if fs.len() > 0 && fs.last().commit == 0 {
        lemma_committed_bound(fs.drop_last());
        assert forall|i: int| committed(fs) <= i < fs.len() implies (#[trigger] fs[i]).commit == 0 by {
            if i < fs.len() - 1 {
                assert(fs.drop_last()[i] == fs[i]);
            }
        }
    }
}

/// No page beyond the final commit size survives, and the offset of each page
/// is that of a committed frame of that page.
pub proof fn lemma_committed_pages(fs: Seq<FrameView>, pgno: u32)
    requires
        committed_pages(fs).dom().contains(pgno),
    ensures
        pgno <= final_commit(fs),
        exists|i: int|
            0 <= i < committed(fs) && (#[trigger] fs[i]).pgno == pgno && fs[i].offset
                == committed_pages(fs)[pgno] && forall|j: int|
                i < j < committed(fs) ==> (#[trigger] fs[j]).pgno != pgno,
{
    lemma_committed_bound(fs);
    let n = committed(fs) as int;
    lemma_newest(fs.take(n), final_commit(fs), pgno);
    let i = choose|i: int|
        0 <= i < n && (#[trigger] fs.take(n)[i]).pgno == pgno && fs.take(n)[i].offset
            == committed_pages(fs)[pgno] && forall|j: int|
            i < j < n ==> (#[trigger] fs.take(n)[j]).pgno != pgno;
    assert(fs.take(n)[i] == fs[i]);
    assert forall|j: int| i < j < n implies (#[trigger] fs[j]).pgno != pgno by {
        assert(fs.take(n)[j] == fs[j]);
    }
}

proof fn lemma_newest(fs: Seq<FrameView>, commit: u32, pgno: u32)
    requires
        newest_offsets(fs, commit).dom().contains(pgno),
    ensures
        pgno <= commit,
        exists|i: int|
            0 <= i < fs.len() && (#[trigger] fs[i]).pgno == pgno && fs[i].offset
                == newest_offsets(fs, commit)[pgno] && forall|j: int|
                i < j < fs.len() ==> (#[trigger] fs[j]).pgno != pgno,
    decreases fs.len(),
{
    if fs.last().pgno == pgno && pgno <= commit {
        assert(fs[fs.len() - 1].pgno == pgno);
    } else {
        let front = fs.drop_last();
        lemma_newest(front, commit, pgno);
        let i = choose|i: int|
            0 <= i < front.len() && (#[trigger] front[i]).pgno == pgno && front[i].offset
                == newest_offsets(front, commit)[pgno] && forall|j: int|
                i < j < front.len() ==> (#[trigger] front[j]).pgno != pgno;
        assert(fs[i] == front[i]);
        assert forall|j: int| i < j < fs.len() implies (#[trigger] fs[j]).pgno != pgno by {
            if j < front.len() {
                assert(front[j] == fs[j]);
            }
        }
    }
}

/// Reading only the tail of a WAL, from `off` on, gives the same frames as reading
/// the whole of it from there.
pub proof fn lemma_tail_reads_the_same(
    data: Seq<u8>,
    h: WalHeader,
    off: int,
    pos: int,
    chk: (u32, u32),
)
    requires
        0 <= off <= data.len(),
        0 <= pos,
    ensures
        frames_from(data.skip(off), h, off, pos, chk) == frames_from(data, h, 0, off + pos, chk),
    decreases data.len() - pos,
{
    let tail = data.skip(off);
    let n = frame_size(h.page_size);
    if pos + n <= tail.len() {
        assert(tail.subrange(pos, pos + n) =~= data.subrange(off + pos, off + pos + n));
        lemma_tail_reads_the_same(data, h, off, pos + n, sum_after(tail, h, pos, chk));
    }
}

/// The checksum that the header of the frame at `pos` states.
spec fn stated_sum(data: Seq<u8>, h: WalHeader, pos: int) -> (u32, u32) {
    let fh = frame_header_of(data.subrange(pos, pos + frame_size(h.page_size)));
    (fh.checksum1, fh.checksum2)
}

proof fn lemma_frames_after(data: Seq<u8>, h: WalHeader, pos: int, chk: (u32, u32), k: nat)
    requires
        0 <= pos,
        1 <= k <= frames_from(data, h, 0, pos, chk).len(),
    ensures
        ({
            let n = frame_size(h.page_size);
            let prev = pos + (k - 1) * n;
            let fh = frame_header_of(data.subrange(prev, prev + n));
            &&& pos <= prev
            &&& prev + n <= data.len()
            &&& prev + n == pos + k * n
            &&& fh.salt1 == h.salt1
            &&& fh.salt2 == h.salt2
            &&& frames_from(data, h, 0, prev + n, stated_sum(data, h, prev)) == frames_from(
                data,
                h,
                0,
                pos,
                chk,
            ).skip(k as int)
        }),
    decreases k,
{
    let n = frame_size(h.page_size);
    let all = frames_from(data, h, 0, pos, chk);
    let rest = frames_from(data, h, 0, pos + n, sum_after(data, h, pos, chk));
    let f = frame_at(data, h, 0, pos, chk)->0;
    assert(all == seq![f] + rest);
    if k == 1 {
        assert((k - 1) * n == 0 && k * n == n) by (nonlinear_arith)
            requires
                k == 1,
        ;
        assert(all.skip(1) =~= rest);
    } else {
        lemma_frames_after(data, h, pos + n, sum_after(data, h, pos, chk), (k - 1) as nat);
        assert((k - 2) * n + n == (k - 1) * n && (k - 1) * n + n == k * n) by (nonlinear_arith);
        assert(all.skip(k as int) =~= rest.skip(k - 1));
    }
}

/// Resuming at a frame reads the rest: a reader that starts after the first `k`
/// valid frames of a WAL reads the frames that are left, so nothing between two
/// syncs is missed or read twice.
pub proof fn lemma_resume_reads_the_rest(data: Seq<u8>, h: WalHeader, k: nat)
    requires
        data.len() <= u64::MAX,
        k <= frames_from(data, h, 0, WAL_HEADER_SIZE as int, (h.checksum1, h.checksum2)).len(),
        data.len() >= WAL_HEADER_SIZE,
    ensures
        ({
            let all = frames_from(
                data,
                h,
                0,
                WAL_HEADER_SIZE as int,
                (h.checksum1, h.checksum2),
            );
            let offset = (WAL_HEADER_SIZE + k * frame_size(h.page_size)) as u64;
            &&& offset == WAL_HEADER_SIZE + k * frame_size(h.page_size)
            &&& seed_at(data, h, offset) is Ok
            &&& frames_from(data, h, 0, offset as int, seed_at(data, h, offset)->Ok_0) == all.skip(
                k as int,
            )
        }),
{
    let n = frame_size(h.page_size);
    let start = WAL_HEADER_SIZE as int;
    let chk = (h.checksum1, h.checksum2);
    let all = frames_from(data, h, 0, start, chk);
    assert((k * n) % n == 0) by {
        vstd::arithmetic::div_mod::lemma_mod_multiples_basic(k as int, n);
    }
    if k == 0 {
        assert(k * n == 0) by (nonlinear_arith)
            requires
                k == 0,
        ;
        assert(all.skip(0) =~= all);
    } else {
        lemma_frames_after(data, h, start, chk, k);
        let prev = start + (k - 1) * n;
        let whole = data.subrange(prev, prev + n);
        let head = data.subrange(prev, prev + WAL_FRAME_HEADER_SIZE);
        assert(k * n > 0) by (nonlinear_arith)
            requires
                k > 0,
                n > 0,
        ;
        assert(whole.subrange(0, 4) =~= head.subrange(0, 4));
        assert(whole.subrange(4, 8) =~= head.subrange(4, 8));
        assert(whole.subrange(8, 12) =~= head.subrange(8, 12));
        assert(whole.subrange(12, 16) =~= head.subrange(12, 16));
        assert(whole.subrange(16, 20) =~= head.subrange(16, 20));
        assert(whole.subrange(20, 24) =~= head.subrange(20, 24));
        assert(frame_header_of(whole) == frame_header_of(head));
    }
}

/// One validated WAL frame.
#[derive(Clone, Copy, Debug)]
pub struct Frame<'a> {
    pub pgno: u32,
    /// Database size in pages after this frame's transaction; 0 = not a commit.
    pub commit: u32,
    /// Byte offset of this frame's *header* within the WAL.
    pub offset: u64,
    /// The page payload (`page_size` bytes).
    pub data: &'a [u8],
}

impl<'a> View for Frame<'a> {
    type V = FrameView;

    open spec fn view(&self) -> FrameView {
        FrameView {
            pgno: self.pgno,
            commit: self.commit,
            offset: self.offset,
            data: self.data@,
        }
    }
}

impl<'a> Frame<'a> {
    pub fn is_commit(&self) -> (r: bool)
        ensures
            r == (self.commit != 0),
    {
        self.commit != 0
    }
}

/// The committed contents of a WAL: the latest frame offset for each page.
#[derive(Debug)]
pub struct PageMap {
    /// pgno → byte offset of the newest committed frame for that page.
    pub pages: HashMap<u32, u64>,
    /// Database size, in pages, at the final commit.
    pub commit: u32,
    /// End offset of the highest frame in the map (one past its page data).
    pub end_offset: u64,
}

impl Default for PageMap {
    fn default() -> (m: Self)
        ensures
            m.pages@ == Map::<u32, u64>::empty(),
            m.commit == 0,
            m.end_offset == 0,
    {
        PageMap { pages: HashMap::new(), commit: 0, end_offset: 0 }
    }
}

/// A reader over WAL bytes in memory: a whole WAL, or its tail.
pub struct WalReader<'a> {
    data: &'a [u8],
    /// Offset within the WAL of the first byte of `data`.
    base: u64,
    header: WalHeader,
    /// Position in `data` of the next frame.
    pos: usize,
    /// Running checksum carried from the previous frame (header seeds it).
    chksum: (u32, u32),
}

impl<'a> WalReader<'a> {
    /// The bytes being read.
    pub closed spec fn bytes(&self) -> Seq<u8> {
        self.data@
    }

    /// The offset within the WAL of the first of the bytes.
    pub closed spec fn base(&self) -> u64 {
        self.base
    }

    /// The header of the WAL.
    pub closed spec fn spec_header(&self) -> WalHeader {
        self.header
    }

    /// The valid frames that are still to be read.
    pub closed spec fn ahead(&self) -> Seq<FrameView> {
        frames_from(self.data@, self.header, self.base as int, self.pos as int, self.chksum)
    }

    /// What always holds of a reader.
    pub closed spec fn wf(&self) -> bool {
        &&& valid_page_size(self.header.page_size)
        &&& self.base + self.data@.len() <= u64::MAX
    }

    /// A frame that is still to be read lies within the bytes.
    pub proof fn lemma_ahead_in_range(&self, i: int)
        requires
            self.wf(),
            0 <= i < self.ahead().len(),
        ensures
            self.base() <= self.ahead()[i].offset,
            self.ahead()[i].offset + frame_size(self.spec_header().page_size) <= self.base()
                + self.bytes().len(),
            self.ahead()[i].data == self.bytes().subrange(
                self.ahead()[i].offset - self.base() + 24,
                self.ahead()[i].offset - self.base() + frame_size(self.spec_header().page_size),
            ),
    {
        lemma_frames_in_range(
            self.data@,
            self.header,
            self.base as int,
            self.pos as int,
            self.chksum,
            i,
        );
    }

    /// Parses and verifies the header, positioning at the first frame.
    pub fn new(data: &'a [u8]) -> (r: Result<WalReader<'a>, WalError>)
        ensures
            match (r, wal_header_of(data@)) {
                (Ok(w), Ok(h)) => {
                    &&& w.wf()
                    &&& w.bytes() == data@
                    &&& w.base() == 0
                    &&& w.spec_header() == h
                    &&& w.ahead() == frames_from(
                        data@,
                        h,
                        0,
                        WAL_HEADER_SIZE as int,
                        (h.checksum1, h.checksum2),
                    )
                },
                (Err(e), Err(se)) => e == se,
                _ => false,
            },
    {
        let len: usize = data.len();
        match WalHeader::parse(data) {
            Err(e) => Err(e),
            Ok(header) => Ok(
                WalReader {
                    data,
                    base: 0,
                    header,
                    pos: WAL_HEADER_SIZE,
                    chksum: (header.checksum1, header.checksum2),
                },
            ),
        }
    }

    /// Parses and verifies the header, positioning at the frame at `offset`. The
    /// checksum is carried on from the frame before it.
    pub fn new_at_offset(data: &'a [u8], offset: u64) -> (r: Result<WalReader<'a>, WalError>)
        ensures
            match wal_header_of(data@) {
                Err(se) => r matches Err(e) && e == se,
                Ok(h) => match seed_at(data@, h, offset) {
                    Err(se) => r matches Err(e) && e == se,
                    Ok(seed) => r matches Ok(w) && {
                        &&& w.wf()
                        &&& w.bytes() == data@
                        &&& w.base() == 0
                        &&& w.spec_header() == h
                        &&& w.ahead() == frames_from(data@, h, 0, offset as int, seed)
                    },
                },
            },
    {
        let len: usize = data.len();
        let header = match WalHeader::parse(data) {
            Ok(h) => h,
            Err(e) => return Err(e),
        };
        let size: u64 = WAL_FRAME_HEADER_SIZE as u64 + header.page_size as u64;
        if offset < WAL_HEADER_SIZE as u64 || (offset - WAL_HEADER_SIZE as u64) % size != 0 {
            return Err(WalError::UnalignedOffset(offset));
        }
        if offset == WAL_HEADER_SIZE as u64 {
            return Ok(
                WalReader {
                    data,
                    base: 0,
                    header,
                    pos: WAL_HEADER_SIZE,
                    chksum: (header.checksum1, header.checksum2),
                },
            );
        }
        proof {
            if offset - WAL_HEADER_SIZE < size {
                lemma_small_mod((offset - WAL_HEADER_SIZE) as nat, size as nat);
            }
        }
        let prev: u64 = offset - size;
        if prev as u128 + WAL_FRAME_HEADER_SIZE as u128 > len as u128 {
            return Err(WalError::PrevFrameMismatch);
        }
        let at: usize = prev as usize;
        let fb = slice_subrange(data, at, at + WAL_FRAME_HEADER_SIZE);
        let fh = WalFrameHeader::parse(fb);
        if fh.salt1 != header.salt1 || fh.salt2 != header.salt2 {
            return Err(WalError::PrevFrameMismatch);
        }
        let chksum = (fh.checksum1, fh.checksum2);
        if offset > len as u64 {
            assert(frames_from(data@, header, 0, offset as int, chksum) =~= Seq::empty());
            assert(frames_from(data@, header, 0, len as int, chksum) =~= Seq::empty());
            return Ok(WalReader { data, base: 0, header, pos: len, chksum });
        }
        Ok(WalReader { data, base: 0, header, pos: offset as usize, chksum })
    }

    /// A reader over the tail of a WAL with the given header: `tail` starts at
    /// `offset`, and `seed` is the checksum state before it.
    pub fn from_tail(header: WalHeader, tail: &'a [u8], offset: u64, seed: (u32, u32)) -> (r: Result<
        WalReader<'a>,
        WalError,
    >)
        requires
            valid_page_size(header.page_size),
            offset + tail@.len() <= u64::MAX,
        ensures
            if !aligned(header.page_size, offset) {
                r matches Err(e) && e == WalError::UnalignedOffset(offset)
            } else {
                r matches Ok(w) && {
                    &&& w.wf()
                    &&& w.bytes() == tail@
                    &&& w.base() == offset
                    &&& w.spec_header() == header
                    &&& w.ahead() == frames_from(tail@, header, offset as int, 0, seed)
                }
            },
    {
        let size: u64 = WAL_FRAME_HEADER_SIZE as u64 + header.page_size as u64;
        if offset < WAL_HEADER_SIZE as u64 || (offset - WAL_HEADER_SIZE as u64) % size != 0 {
            return Err(WalError::UnalignedOffset(offset));
        }
        Ok(WalReader { data: tail, base: offset, header, pos: 0, chksum: seed })
    }

    pub fn header(&self) -> (h: &WalHeader)
        ensures
            *h == self.spec_header(),
    {
        &self.header
    }

    pub fn page_size(&self) -> (r: u32)
        ensures
            r == self.spec_header().page_size,
    {
        self.header.page_size
    }

    /// Returns the page payload for a frame whose header starts at `offset` of
    /// the WAL.
    pub fn page_data_at(&self, offset: u64) -> (d: &'a [u8])
        requires
            self.wf(),
            self.base() <= offset,
            offset + frame_size(self.spec_header().page_size) <= self.base() + self.bytes().len(),
        ensures
            d@ == self.bytes().subrange(
                offset - self.base() + 24,
                offset - self.base() + frame_size(self.spec_header().page_size),
            ),
            d@.len() == self.spec_header().page_size,
    {
        let len: usize = self.data.len();
        let start: usize = (offset - self.base) as usize + WAL_FRAME_HEADER_SIZE;
        slice_subrange(self.data, start, start + self.header.page_size as usize)
    }

    /// Reads and verifies the next frame, or returns `None` at the end of the
    /// valid WAL (torn tail, salt change, or checksum mismatch).
    pub fn read_frame(&mut self) -> (r: Option<Frame<'a>>)
        requires
            old(self).wf(),
        ensures
            final(self).wf(),
            final(self).bytes() == old(self).bytes(),
            final(self).base() == old(self).base(),
            final(self).spec_header() == old(self).spec_header(),
            match r {
                None => old(self).ahead() == Seq::<FrameView>::empty() && *final(self) == *old(
                    self,
                ),
                Some(f) => old(self).ahead().len() > 0 && f@ == old(self).ahead()[0]
                    && final(self).ahead() == old(self).ahead().skip(1),
            },
    {
        let len: usize = self.data.len();
        let page_size: usize = self.header.page_size as usize;
        let size: usize = WAL_FRAME_HEADER_SIZE + page_size;
        if self.pos > len || len - self.pos < size {
            return None;
        }
        let f = slice_subrange(self.data, self.pos, self.pos + size);
        let hdr = WalFrameHeader::parse(f);
        if hdr.salt1 != self.header.salt1 || hdr.salt2 != self.header.salt2 {
            return None;
        }
        let bo = self.header.byte_order;
        let head = slice_subrange(f, 0, 8);
        assert(head@ =~= f@.take(8));
        let page = slice_subrange(f, WAL_FRAME_HEADER_SIZE, size);
        assert(page@ =~= f@.skip(24));
        let (a0, a1) = wal_checksum(bo, self.chksum.0, self.chksum.1, head);
        let (c0, c1) = wal_checksum(bo, a0, a1, page);
        if c0 != hdr.checksum1 || c1 != hdr.checksum2 {
            return None;
        }
        let frame = Frame {
            pgno: hdr.pgno,
            commit: hdr.commit,
            offset: self.base + self.pos as u64,
            data: page,
        };
        let ghost rest = frames_from(
            self.data@,
            self.header,
            self.base as int,
            self.pos + size,
            (c0, c1),
        );
        assert((seq![frame@] + rest).skip(1) =~= rest);
        self.chksum = (c0, c1);
        self.pos = self.pos + size;
        Some(frame)
    }

    /// Reads all frames that are left and returns the committed [`PageMap`].
    ///
    /// A frame counts only once its transaction commits; trailing uncommitted
    /// frames are dropped, as are pages beyond the final commit size (e.g. after
    /// a `VACUUM` shrink).
    pub fn page_map(&mut self) -> (m: PageMap)
        requires
            old(self).wf(),
        ensures
            final(self).wf(),
            final(self).bytes() == old(self).bytes(),
            final(self).base() == old(self).base(),
            final(self).spec_header() == old(self).spec_header(),
            final(self).ahead() == Seq::<FrameView>::empty(),
            m.pages@ == committed_pages(old(self).ahead()),
            m.commit == final_commit(old(self).ahead()),
            m.end_offset == committed_end(old(self).ahead(), old(self).spec_header().page_size),
            is_end_offset(m.pages@, old(self).spec_header().page_size, m.end_offset),
    {
        let ghost fs = self.ahead();
        let ghost start = *self;
        let mut seen: Vec<(u32, u64)> = Vec::new();
        let mut n: usize = 0;
        let mut commit: u32 = 0;
        let mut more: bool = true;
        while more
            invariant
                self.wf(),
                self.bytes() == start.bytes(),
                self.base() == start.base(),
                self.spec_header() == start.spec_header(),
                start.wf(),
                fs == start.ahead(),
                seen@.len() <= fs.len(),
                self.ahead() == fs.skip(seen@.len() as int),
                !more ==> self.ahead().len() == 0,
                n == committed(fs.take(seen@.len() as int)),
                n <= seen@.len(),
                commit == final_commit(fs.take(seen@.len() as int)),
                forall|i: int|
                    0 <= i < seen@.len() ==> #[trigger] seen@[i] == (fs[i].pgno, fs[i].offset),
            decreases fs.len() - seen@.len() + (if more { 1int } else { 0int }),
        {
            let ghost k = seen@.len() as int;
            match self.read_frame() {
                None => {
                    more = false;
                },
                Some(f) => {
                    assert(fs.skip(k).skip(1) =~= fs.skip(k + 1));
                    assert(fs.take(k + 1).drop_last() =~= fs.take(k));
                    assert(fs.take(k + 1).last() == f@);
                    seen.push((f.pgno, f.offset));
                    proof {
                        lemma_committed_bound(fs.take(k));
                        if committed(fs.take(k)) > 0 {
                            assert(fs.take(k + 1)[committed(fs.take(k)) - 1] == fs.take(
                                k,
                            )[committed(fs.take(k)) - 1]);
                        }
                    }
                    if f.is_commit() {
                        n = seen.len();
                        commit = f.commit;
                    }
                },
            }
        }
        proof {
            assert(self.ahead() =~= Seq::empty());
            assert(fs.skip(seen@.len() as int).len() == 0);
            assert(fs.take(seen@.len() as int) =~= fs);
        }
        let size: u64 = WAL_FRAME_HEADER_SIZE as u64 + self.header.page_size as u64;
        let mut pages: HashMap<u32, u64> = HashMap::new();
        let mut end_offset: u64 = 0;
        let mut i: usize = 0;
        assert(fs.take(0) =~= Seq::empty());
        assert(pages@ =~= newest_offsets(fs.take(0), commit));
        while i < n
            invariant
                i <= n <= seen@.len(),
                seen@.len() == fs.len(),
                start.wf(),
                fs == start.ahead(),
                size == frame_size(start.spec_header().page_size),
                forall|k: int|
                    0 <= k < seen@.len() ==> #[trigger] seen@[k] == (fs[k].pgno, fs[k].offset),
                pages@ == newest_offsets(fs.take(i as int), commit),
                is_end_offset(pages@, start.spec_header().page_size, end_offset),
                end_offset == kept_end(
                    fs.take(i as int),
                    commit,
                    start.spec_header().page_size,
                ),
                end_offset > 0 ==> exists|k: int|
                    0 <= k < i && (#[trigger] fs[k]).offset + size == end_offset,
            decreases n - i,
        {
            let (pgno, offset) = seen[i];
            let ghost before = pages@;
            let ghost end0 = end_offset;
            proof {
                start.lemma_ahead_in_range(i as int);
                assert(fs.take(i + 1).drop_last() =~= fs.take(i as int));
                assert(fs.take(i + 1).last() == fs[i as int]);
            }
            if pgno <= commit {
                pages.insert(pgno, offset);
                end_offset = offset + size;
                proof {
                    if end0 > 0 {
                        let k = choose|k: int|
                            0 <= k < i && (#[trigger] fs[k]).offset + size == end0;
                        start.lemma_offsets_ascend(k, i as int);
                    }
                    assert(pages@.dom().contains(pgno));
                    assert(pages@[pgno] + size == end_offset);
                    assert forall|p: u32| #![trigger pages@[p]] pages@.dom().contains(p) implies pages@[p]
                        + size <= end_offset by {
                        if p != pgno {
                            assert(before.dom().contains(p));
                            assert(before[p] == pages@[p]);
                        }
                    }
                    assert(fs[i as int].offset + size == end_offset);
                }
            }
            i += 1;
        }
        PageMap { pages, commit, end_offset }
    }

    /// Later frames lie at higher offsets.
    pub proof fn lemma_offsets_ascend(&self, i: int, j: int)
        requires
            self.wf(),
            0 <= i < j < self.ahead().len(),
        ensures
            self.ahead()[i].offset + frame_size(self.spec_header().page_size)
                <= self.ahead()[j].offset,
    {
        lemma_frame_offset(
            self.data@,
            self.header,
            self.base as int,
            self.pos as int,
            self.chksum,
            i,
        );
        lemma_frame_offset(
            self.data@,
            self.header,
            self.base as int,
            self.pos as int,
            self.chksum,
            j,
        );
        let size = frame_size(self.header.page_size);
        assert(i * size + size <= j * size) by (nonlinear_arith)
            requires
                i < j,
                size > 0,
        ;
    }
}

/// The frames that are read stand one after another.
pub proof fn lemma_frame_offset(
    data: Seq<u8>,
    h: WalHeader,
    base: int,
    pos: int,
    chk: (u32, u32),
    i: int,
)
    requires
        0 <= pos,
        0 <= base,
        base + data.len() <= u64::MAX,
        0 <= i < frames_from(data, h, base, pos, chk).len(),
    ensures
        frames_from(data, h, base, pos, chk)[i].offset == base + pos + i * frame_size(h.page_size),
        pos + i * frame_size(h.page_size) + frame_size(h.page_size) <= data.len(),
        frames_from(data, h, base, pos, chk)[i].data == data.subrange(
            pos + i * frame_size(h.page_size) + 24,
            pos + i * frame_size(h.page_size) + frame_size(h.page_size),
        ),
    decreases i,
{
    let size = frame_size(h.page_size);
    let f = frame_at(data, h, base, pos, chk)->0;
    let next = sum_after(data, h, pos, chk);
    let rest = frames_from(data, h, base, pos + size, next);
    if i > 0 {
        lemma_frame_offset(data, h, base, pos + size, next, i - 1);
        assert(frames_from(data, h, base, pos, chk)[i] == rest[i - 1]);
        assert(size + (i - 1) * size == i * size) by (nonlinear_arith);
    } else {
        assert(0 * size == 0) by (nonlinear_arith);
        assert(data.subrange(pos, pos + size).skip(24) =~= data.subrange(pos + 24, pos + size));
    }
}

/// A frame that is read lies within the bytes, and its page follows its header.
pub proof fn lemma_frames_in_range(
    data: Seq<u8>,
    h: WalHeader,
    base: int,
    pos: int,
    chk: (u32, u32),
    i: int,
)
    requires
        0 <= pos,
        0 <= base,
        base + data.len() <= u64::MAX,
        0 <= i < frames_from(data, h, base, pos, chk).len(),
    ensures
        ({
            let f = frames_from(data, h, base, pos, chk)[i];
            &&& base <= f.offset
            &&& f.offset + frame_size(h.page_size) <= base + data.len()
            &&& f.data == data.subrange(
                f.offset - base + 24,
                f.offset - base + frame_size(h.page_size),
            )
        }),
{
    lemma_frame_offset(data, h, base, pos, chk, i);
    let size = frame_size(h.page_size);
    assert(i * size >= 0) by (nonlinear_arith)
        requires
            i >= 0,
            size >= 0,
    ;
}

} // verus!
