//! Reading an LTX file from front to back.

use crate::ltx::checksum::{
    CHECKSUM_FLAG, Checksum, Hasher, checksum_page, flagged_crc64, fold_checksum, page_checksum,
};
use crate::ltx::decoder::block_compressed;
use crate::ltx::encoder::zeros;
use crate::ltx::error::LtxError;
use crate::ltx::format::{
    HEADER_FLAG_NO_CHECKSUM, HEADER_SIZE, Header, PAGE_HEADER_SIZE, PageHeader, TRAILER_SIZE,
    Trailer, field, header_of, lock_page, lock_pgno, page_header_of, trailer_of, valid_page_size,
};
use crate::ltx::index::{PageIndexElem, decode_page_index, index_of};
use crate::ltx::lz4::{MAX_BLOCK_LEN, decompress_block, lz4_block_into};
use crate::wire::be_u32;
use vstd::prelude::*;
use vstd::slice::slice_subrange;

verus! {

/// Which part of the file a decoder reads next.
#[derive(Clone, Copy, Debug, PartialEq, Eq, Structural)]
pub enum DecoderStage {
    Header,
    Page,
    Close,
    Closed,
}

/// How far a decoder has come: the position after what it read, what it fed to
/// the file checksum, and the rolling checksum of the pages.
#[verifier::ext_equal]
pub struct Progress {
    pub pos: int,
    pub hashed: Seq<u8>,
    pub rolling: u64,
}

/// What one step over the page block does.
pub enum PageStep {
    /// The terminator was read.
    End(Progress),
    /// A page was read: its header, and what the page buffer holds then.
    Page(PageHeader, Seq<u8>, Progress),
    /// The page could not be read, after what was read until then.
    Fail(LtxError, Progress),
}

/// Where a decoder stands before it has read anything.
pub open spec fn file_start() -> Progress {
    Progress { pos: 0, hashed: Seq::empty(), rolling: 0 }
}

/// `at` once the next `n` bytes of `b` were read and fed to the file checksum.
pub open spec fn read_and_hashed(b: Seq<u8>, at: Progress, n: int) -> Progress {
    Progress {
        pos: at.pos + n,
        hashed: at.hashed + b.skip(at.pos).take(n),
        rolling: at.rolling,
    }
}

/// Whether a decoder may stand at `end` after the error `e` came at `at`. Where the
/// `len` bytes of the input end too soon, it is open how many of the last ones
/// were read.
pub open spec fn stands_after(e: LtxError, at: Progress, end: Progress, len: nat) -> bool {
    if e is UnexpectedEof {
        &&& at.pos <= end.pos <= len
        &&& end.hashed == at.hashed
        &&& end.rolling == at.rolling
    } else {
        end == at
    }
}

/// Whether the rolling checksum of a file with header `h` is kept.
pub open spec fn rolls(h: Header) -> bool {
    h.min_txid == 1 && h.flags & HEADER_FLAG_NO_CHECKSUM == 0
}

/// The rolling checksum after the page `pgno`.
pub open spec fn rolled(h: Header, rolling: u64, pgno: u32, data: Seq<u8>) -> u64 {
    if rolls(h) && pgno != lock_page(h.page_size) {
        fold_checksum(rolling, page_checksum(pgno, data))
    } else {
        rolling
    }
}

/// The step over the page block of `b` that a decoder at `at` takes with a page
/// buffer that holds `buf`.
pub open spec fn page_step(b: Seq<u8>, h: Header, at: Progress, buf: Seq<u8>) -> PageStep {
    let rest = b.skip(at.pos);
    if rest.len() < PAGE_HEADER_SIZE {
        PageStep::Fail(LtxError::UnexpectedEof, at)
    } else {
        let ph = page_header_of(rest)->Ok_0;
        let headed = read_and_hashed(b, at, 6);
        if ph.pgno == 0 && ph.flags == 0 {
            PageStep::End(headed)
        } else if ph.pgno == 0 {
            PageStep::Fail(LtxError::ZeroPageNumber, headed)
        } else if !block_compressed(ph) {
            PageStep::Fail(LtxError::FrameFormatUnsupported, headed)
        } else if rest.len() < 10 {
            PageStep::Fail(LtxError::UnexpectedEof, headed)
        } else {
            let n = field(rest, 6, 4);
            let sized = read_and_hashed(b, at, 10);
            let passed = Progress { pos: sized.pos + n, ..sized };
            if rest.len() < 10 + n {
                PageStep::Fail(LtxError::UnexpectedEof, sized)
            } else if n > MAX_BLOCK_LEN {
                PageStep::Fail(LtxError::BlockTooLong { len: n as u32 }, passed)
            } else {
                match lz4_block_into(rest.subrange(10, (10 + n) as int), buf) {
                    Err(e) => PageStep::Fail(LtxError::Lz4(e), passed),
                    Ok((_, data)) => PageStep::Page(
                        ph,
                        data,
                        Progress {
                            pos: at.pos + 10 + n,
                            hashed: at.hashed + rest.take(10) + data,
                            rolling: rolled(h, at.rolling, ph.pgno, data),
                        },
                    ),
                }
            }
        }
    }
}

/// What reading the index and the trailer gives, after the terminator.
pub open spec fn finish_of(b: Seq<u8>, h: Header, at: Progress) -> Result<
    (Seq<PageIndexElem>, Trailer),
    LtxError,
> {
    let rest = b.skip(at.pos);
    if rest.len() < TRAILER_SIZE {
        Err(LtxError::ShortBuffer { need: TRAILER_SIZE, got: rest.len() as usize })
    } else {
        match index_of(rest.take(rest.len() - TRAILER_SIZE)) {
            Err(e) => Err(e),
            Ok(es) => {
                let t = trailer_of(rest.skip(rest.len() - TRAILER_SIZE))->Ok_0;
                let computed = Checksum(flagged_crc64(at.hashed + rest.take(rest.len() - 8)));
                if computed != t.file_checksum {
                    Err(
                        LtxError::FileChecksumMismatch {
                            expected: t.file_checksum,
                            actual: computed,
                        },
                    )
                } else if rolls(h) && t.post_apply_checksum.0 != at.rolling {
                    Err(
                        LtxError::PostApplyChecksumMismatch {
                            expected: t.post_apply_checksum,
                            actual: Checksum(at.rolling),
                        },
                    )
                } else {
                    Ok((es, t))
                }
            },
        }
    }
}

/// Where a decoder at `at` stands once the index and the trailer were read, whether
/// or not they are sound: at the end of the file, with all but the file checksum
/// itself fed to the file checksum. Too few bytes for a trailer are not fed to it.
pub open spec fn finish_reached(b: Seq<u8>, at: Progress) -> Progress {
    let rest = b.skip(at.pos);
    Progress {
        pos: b.len() as int,
        hashed: if rest.len() < TRAILER_SIZE {
            at.hashed
        } else {
            at.hashed + rest.take(rest.len() - 8)
        },
        rolling: at.rolling,
    }
}

/// The page index that a decoder at `at` holds then, having held `before`: the one
/// it read, where that could be parsed.
pub open spec fn finish_index(
    b: Seq<u8>,
    at: Progress,
    before: Seq<PageIndexElem>,
) -> Seq<PageIndexElem> {
    let rest = b.skip(at.pos);
    if rest.len() < TRAILER_SIZE {
        before
    } else {
        match index_of(rest.take(rest.len() - TRAILER_SIZE)) {
            Err(_) => before,
            Ok(es) => es,
        }
    }
}

/// Where a decoder at `at` stands after the header `h`.
pub open spec fn after_header(b: Seq<u8>, at: Progress, h: Header) -> Progress {
    let read = read_and_hashed(b, at, HEADER_SIZE as int);
    if h.flags & HEADER_FLAG_NO_CHECKSUM == 0 {
        Progress { rolling: CHECKSUM_FLAG, ..read }
    } else {
        read
    }
}

/// What decoding a header from the front of `b` gives.
pub open spec fn stream_header_of(b: Seq<u8>) -> Result<Header, LtxError> {
    if b.len() < HEADER_SIZE {
        Err(LtxError::UnexpectedEof)
    } else {
        header_of(b.take(HEADER_SIZE as int))
    }
}

/// A streaming decoder over the bytes of an LTX file.
pub struct Decoder<'a> {
    data: &'a [u8],
    pos: usize,
    stage: DecoderStage,
    hash: Hasher,
    header: Option<Header>,
    rolling: Checksum,
    page_index: Vec<PageIndexElem>,
    trailer: Option<Trailer>,
}

impl<'a> Decoder<'a> {
    /// The file being read.
    pub closed spec fn input(&self) -> Seq<u8> {
        self.data@
    }

    /// Which part of the file comes next.
    pub closed spec fn spec_stage(&self) -> DecoderStage {
        self.stage
    }

    /// How far the decoder has come.
    pub closed spec fn progress(&self) -> Progress {
        Progress { pos: self.pos as int, hashed: self.hash@, rolling: self.rolling.0 }
    }

    /// The header, once it was read.
    pub closed spec fn spec_header(&self) -> Option<Header> {
        self.header
    }

    /// The trailer, once it was verified.
    pub closed spec fn spec_trailer(&self) -> Option<Trailer> {
        self.trailer
    }

    /// The page index, once the trailer was verified.
    pub closed spec fn spec_index(&self) -> Seq<PageIndexElem> {
        self.page_index@
    }

    /// What always holds of a decoder.
    pub closed spec fn wf(&self) -> bool {
        &&& self.pos <= self.data@.len()
        &&& (self.stage == DecoderStage::Header) == (self.header is None)
        &&& self.header is Some ==> valid_page_size(self.header->0.page_size)
        &&& (self.stage == DecoderStage::Closed) == (self.trailer is Some)
    }

    pub fn new(data: &'a [u8]) -> (d: Self)
        ensures
            d.wf(),
            d.input() == data@,
            d.spec_stage() == DecoderStage::Header,
            d.progress() == file_start(),
            d.spec_header() is None,
            d.spec_trailer() is None,
            d.spec_index() == Seq::<PageIndexElem>::empty(),
    {
        Decoder {
            data,
            pos: 0,
            stage: DecoderStage::Header,
            hash: Hasher::new(),
            header: None,
            rolling: Checksum(0),
            page_index: Vec::new(),
            trailer: None,
        }
    }

    pub fn header(&self) -> (h: Option<&Header>)
        ensures
            h == (match self.spec_header() {
                Some(h) => Some(&h),
                None => None,
            }),
    {
        match &self.header {
            Some(h) => Some(h),
            None => None,
        }
    }

    pub fn trailer(&self) -> (t: Option<&Trailer>)
        ensures
            t == (match self.spec_trailer() {
                Some(t) => Some(&t),
                None => None,
            }),
    {
        match &self.trailer {
            Some(t) => Some(t),
            None => None,
        }
    }

    pub fn page_index(&self) -> (es: &[PageIndexElem])
        ensures
            es@ == self.spec_index(),
    {
        self.page_index.as_slice()
    }

    /// Reads and validates the 100-byte header. The 100 bytes are read, and fed to
    /// the file checksum, whether or not they are a valid header.
    pub fn decode_header(&mut self) -> (r: Result<Header, LtxError>)
        requires
            old(self).wf(),
            old(self).spec_stage() == DecoderStage::Header,
        ensures
            r == stream_header_of(old(self).input().skip(old(self).progress().pos)),
            final(self).wf(),
            final(self).input() == old(self).input(),
            final(self).spec_index() == old(self).spec_index(),
            final(self).spec_trailer() is None,
            match r {
                Ok(h) => {
                    &&& final(self).spec_stage() == DecoderStage::Page
                    &&& final(self).spec_header() == Some(h)
                    &&& final(self).progress() == after_header(
                        old(self).input(),
                        old(self).progress(),
                        h,
                    )
                },
                Err(e) => {
                    &&& final(self).spec_stage() == DecoderStage::Header
                    &&& final(self).spec_header() is None
                    &&& if old(self).input().len() - old(self).progress().pos < HEADER_SIZE {
                        stands_after(
                            e,
                            old(self).progress(),
                            final(self).progress(),
                            old(self).input().len(),
                        )
                    } else {
                        final(self).progress() == read_and_hashed(
                            old(self).input(),
                            old(self).progress(),
                            HEADER_SIZE as int,
                        )
                    }
                },
            },
    {
        let len: usize = self.data.len();
        let rest = slice_subrange(self.data, self.pos, len);
        assert(rest@ =~= self.data@.skip(self.pos as int));
        if len - self.pos < HEADER_SIZE {
            self.pos = len;
            return Err(LtxError::UnexpectedEof);
        }
        let b = slice_subrange(rest, 0, HEADER_SIZE);
        assert(b@ =~= rest@.take(HEADER_SIZE as int));
        self.hash.update(b);
        self.pos = self.pos + HEADER_SIZE;
        let header = match Header::decode(b) {
            Ok(h) => h,
            Err(e) => return Err(e),
        };
        if !header.no_checksum() {
            self.rolling = Checksum(CHECKSUM_FLAG);
        }
        self.header = Some(header);
        self.stage = DecoderStage::Page;
        Ok(header)
    }

    /// Reads the next page into `data` (which must be `page_size` long).
    ///
    /// Returns `Ok(Some(header))` for a page, or `Ok(None)` once the zero page
    /// header is reached (after which call [`Decoder::finish`]). After an error
    /// the decoder stands behind what it read of the page. `data` is as it was, unless
    /// an LZ4 block did not decode into it; it then keeps its length.
    pub fn decode_page(&mut self, data: &mut Vec<u8>) -> (r: Result<Option<PageHeader>, LtxError>)
        requires
            old(self).wf(),
            old(self).spec_stage() != DecoderStage::Header,
            old(data)@.len() == old(self).spec_header()->0.page_size,
        ensures
            final(self).wf(),
            final(data)@.len() == old(data)@.len(),
            final(self).input() == old(self).input(),
            final(self).spec_header() == old(self).spec_header(),
            final(self).spec_trailer() == old(self).spec_trailer(),
            final(self).spec_index() == old(self).spec_index(),
            if old(self).spec_stage() != DecoderStage::Page {
                &&& r == Ok::<Option<PageHeader>, LtxError>(None)
                &&& *final(self) == *old(self)
                &&& final(data)@ == old(data)@
            } else {
                match page_step(
                    old(self).input(),
                    old(self).spec_header()->0,
                    old(self).progress(),
                    old(data)@,
                ) {
                    PageStep::Fail(e, at) => {
                        &&& r == Err::<Option<PageHeader>, LtxError>(e)
                        &&& final(self).spec_stage() == DecoderStage::Page
                        &&& stands_after(
                            e,
                            at,
                            final(self).progress(),
                            old(self).input().len(),
                        )
                        &&& !(e is Lz4) ==> final(data)@ == old(data)@
                    },
                    PageStep::End(next) => {
                        &&& r == Ok::<Option<PageHeader>, LtxError>(None)
                        &&& final(self).spec_stage() == DecoderStage::Close
                        &&& final(self).progress() == next
                        &&& final(data)@ == old(data)@
                    },
                    PageStep::Page(ph, d, next) => {
                        &&& r == Ok::<Option<PageHeader>, LtxError>(Some(ph))
                        &&& final(self).spec_stage() == DecoderStage::Page
                        &&& final(self).progress() == next
                        &&& final(data)@ == d
                    },
                }
            },
    {
        let header = match self.header {
            Some(h) => h,
            None => return Ok(None),
        };
        if self.stage != DecoderStage::Page {
            return Ok(None);
        }
        let ghost start = self.progress();
        let len: usize = self.data.len();
        let rest = slice_subrange(self.data, self.pos, len);
        assert(rest@ =~= self.data@.skip(self.pos as int));
        let avail: usize = len - self.pos;
        if avail < PAGE_HEADER_SIZE {
            self.pos = len;
            return Err(LtxError::UnexpectedEof);
        }
        let hb = slice_subrange(rest, 0, PAGE_HEADER_SIZE);
        assert(hb@ =~= rest@.take(6));
        self.hash.update(hb);
        self.pos = self.pos + PAGE_HEADER_SIZE;
        let ph = match PageHeader::decode(rest) {
            Ok(ph) => ph,
            Err(e) => return Err(e),
        };
        if ph.is_zero() {
            self.stage = DecoderStage::Close;
            return Ok(None);
        }
        if ph.pgno == 0 {
            return Err(LtxError::ZeroPageNumber);
        }
        if !ph.is_block_compressed() {
            return Err(LtxError::FrameFormatUnsupported);
        }
        if avail < 10 {
            self.pos = len;
            return Err(LtxError::UnexpectedEof);
        }
        let sb = slice_subrange(rest, PAGE_HEADER_SIZE, 10);
        self.hash.update(sb);
        assert(self.hash@ =~= start.hashed + rest@.take(10));
        let n: usize = be_u32(rest, 6) as usize;
        if avail - 10 < n {
            self.pos = len;
            return Err(LtxError::UnexpectedEof);
        }
        self.pos = self.pos + 4 + n;
        if n > MAX_BLOCK_LEN {
            return Err(LtxError::BlockTooLong { len: n as u32 });
        }
        let block = slice_subrange(rest, 10, 10 + n);
        match decompress_block(block, data) {
            Err(e) => return Err(LtxError::Lz4(e)),
            Ok(_) => {},
        }
        self.hash.update(data);
        if header.is_snapshot() && !header.no_checksum() && ph.pgno != lock_pgno(header.page_size) {
            self.rolling = self.rolling.fold(checksum_page(ph.pgno, data));
        }
        assert(self.hash@ =~= start.hashed + rest@.take(10) + data@);
        Ok(Some(ph))
    }

    /// Consumes the page index and trailer, verifying the file checksum (and,
    /// for snapshots that keep one, the post-apply checksum). Returns the trailer.
    /// Everything to the end of the file is read, whether or not it is sound.
    pub fn finish(&mut self) -> (r: Result<Trailer, LtxError>)
        requires
            old(self).wf(),
            old(self).spec_stage() == DecoderStage::Close || old(self).spec_stage()
                == DecoderStage::Closed,
        ensures
            final(self).wf(),
            if old(self).spec_stage() == DecoderStage::Closed {
                &&& r == Ok::<Trailer, LtxError>(old(self).spec_trailer()->0)
                &&& *final(self) == *old(self)
            } else {
                &&& final(self).input() == old(self).input()
                &&& final(self).spec_header() == old(self).spec_header()
                &&& final(self).progress() == finish_reached(
                    old(self).input(),
                    old(self).progress(),
                )
                &&& final(self).spec_index() == finish_index(
                    old(self).input(),
                    old(self).progress(),
                    old(self).spec_index(),
                )
                &&& match finish_of(
                    old(self).input(),
                    old(self).spec_header()->0,
                    old(self).progress(),
                ) {
                    Err(e) => {
                        &&& r == Err::<Trailer, LtxError>(e)
                        &&& final(self).spec_stage() == DecoderStage::Close
                        &&& final(self).spec_trailer() is None
                    },
                    Ok((es, t)) => {
                        &&& r == Ok::<Trailer, LtxError>(t)
                        &&& final(self).spec_stage() == DecoderStage::Closed
                        &&& final(self).spec_trailer() == Some(t)
                        &&& final(self).spec_index() == es
                    },
                }
            },
    {
        let header = match self.header {
            Some(h) => h,
            None => return Err(LtxError::UnexpectedEof),
        };
        match self.trailer {
            Some(t) => return Ok(t),
            None => {},
        }
        let len: usize = self.data.len();
        let rest = slice_subrange(self.data, self.pos, len);
        assert(rest@ =~= self.data@.skip(self.pos as int));
        let n: usize = len - self.pos;
        self.pos = len;
        if n < TRAILER_SIZE {
            return Err(LtxError::ShortBuffer { need: TRAILER_SIZE, got: n });
        }
        let covered = slice_subrange(rest, 0, n - 8);
        assert(covered@ =~= rest@.take(n - 8));
        self.hash.update(covered);
        let trailer_at: usize = n - TRAILER_SIZE;
        let ib = slice_subrange(rest, 0, trailer_at);
        assert(ib@ =~= rest@.take(trailer_at as int));
        match decode_page_index(ib) {
            Ok(es) => {
                self.page_index = es;
            },
            Err(e) => return Err(e),
        }
        let tb = slice_subrange(rest, trailer_at, n);
        assert(tb@ =~= rest@.skip(trailer_at as int));
        let trailer = match Trailer::decode(tb) {
            Ok(t) => t,
            Err(e) => return Err(e),
        };
        let computed = self.hash.checksum();
        if computed != trailer.file_checksum {
            return Err(
                LtxError::FileChecksumMismatch {
                    expected: trailer.file_checksum,
                    actual: computed,
                },
            );
        }
        if header.is_snapshot() && !header.no_checksum() && trailer.post_apply_checksum
            != self.rolling {
            return Err(
                LtxError::PostApplyChecksumMismatch {
                    expected: trailer.post_apply_checksum,
                    actual: self.rolling,
                },
            );
        }
        self.trailer = Some(trailer);
        self.stage = DecoderStage::Closed;
        Ok(trailer)
    }
}

/// A fully decoded snapshot: its header, the reconstructed database bytes, and
/// the verified trailer.
pub struct Snapshot {
    pub header: Header,
    pub db: Vec<u8>,
    pub trailer: Trailer,
}

/// A database image under reconstruction, the page buffer, and the progress of
/// the decoder.
#[verifier::ext_equal]
pub struct Rebuild {
    pub db: Seq<u8>,
    pub buf: Seq<u8>,
    pub at: Progress,
}

/// `db` with the bytes from `start` on replaced by `data`.
pub open spec fn overwrite(db: Seq<u8>, start: int, data: Seq<u8>) -> Seq<u8> {
    db.take(start) + data + db.skip(start + data.len())
}

/// The image of the snapshot `b` after its pages `1..=n`; the lock page is left
/// zero.
pub open spec fn rebuild(b: Seq<u8>, h: Header, n: nat) -> Result<Rebuild, LtxError>
    decreases n,
{
    if n == 0 {
        Ok(
            Rebuild {
                db: zeros((h.page_size * h.commit) as nat),
                buf: zeros(h.page_size as nat),
                at: after_header(b, file_start(), h),
            },
        )
    } else {
        match rebuild(b, h, (n - 1) as nat) {
            Err(e) => Err(e),
            Ok(s) => if n == lock_page(h.page_size) {
                Ok(s)
            } else {
                match page_step(b, h, s.at, s.buf) {
                    PageStep::Fail(e, _) => Err(e),
                    PageStep::End(_) => Err(LtxError::UnexpectedPage { expected: n as u32, got: 0 }),
                    PageStep::Page(ph, d, next) => if ph.pgno != n {
                        Err(LtxError::UnexpectedPage { expected: n as u32, got: ph.pgno })
                    } else {
                        Ok(
                            Rebuild {
                                db: overwrite(s.db, (n - 1) * h.page_size, d),
                                buf: d,
                                at: next,
                            },
                        )
                    },
                }
            },
        }
    }
}

/// Each of the first `n` blocks of the snapshot `b` gives a whole page.
pub open spec fn whole_blocks(b: Seq<u8>, h: Header, n: nat) -> bool {
    forall|k: nat|
        k <= n ==> ((#[trigger] rebuild(b, h, k)) matches Ok(s) && s.buf.len() == h.page_size)
}

/// What decoding the snapshot file `b` gives: header, image and trailer.
pub open spec fn snapshot_of(b: Seq<u8>) -> Result<(Header, Seq<u8>, Trailer), LtxError> {
    match stream_header_of(b) {
        Err(e) => Err(e),
        Ok(h) => if h.min_txid != 1 {
            Err(LtxError::NotASnapshot)
        } else if h.page_size * h.commit > usize::MAX {
            Err(LtxError::ImageTooLarge { pages: h.commit as u64 })
        } else {
            match rebuild(b, h, h.commit as nat) {
                Err(e) => Err(e),
                Ok(s) => match page_step(b, h, s.at, s.buf) {
                    PageStep::Fail(e, _) => Err(e),
                    PageStep::Page(_, _, _) => Err(LtxError::NotASnapshot),
                    PageStep::End(at) => match finish_of(b, h, at) {
                        Err(e) => Err(e),
                        Ok((_, t)) => Ok((h, s.db, t)),
                    },
                },
            }
        },
    }
}

/// Copies `src` over `dst` from `start` on.
pub fn copy_at(dst: &mut Vec<u8>, start: usize, src: &[u8])
    requires
        start + src@.len() <= old(dst)@.len(),
    ensures
        final(dst)@ == overwrite(old(dst)@, start as int, src@),
        final(dst)@.len() == old(dst)@.len(),
{
    let n: usize = src.len();
    let total: usize = dst.len();
    let mut i: usize = 0;
    while i < n
        invariant
            i <= n,
            n == src@.len(),
            start + n <= total,
            total == old(dst)@.len(),
            dst@.len() == old(dst)@.len(),
            dst@ =~= overwrite(old(dst)@, start as int, src@.take(i as int)),
        decreases n - i,
    {
        let v = src[i];
        dst.set(start + i, v);
        i += 1;
    }
    assert(src@.take(n as int) =~= src@);
}

/// A page that cannot be rebuilt ends the rebuilding.
pub proof fn lemma_rebuild_error(b: Seq<u8>, h: Header, i: nat, n: nat)
    requires
        i <= n,
        rebuild(b, h, i) is Err,
    ensures
        rebuild(b, h, n) == rebuild(b, h, i),
    decreases n - i,
{
    if i < n {
        lemma_rebuild_error(b, h, i, (n - 1) as nat);
    }
}

/// Decodes a snapshot LTX file and reconstructs the full database image.
///
/// Errors with [`LtxError::NotASnapshot`] if the file is an incremental. The
/// lock page (for databases above 1 GiB) is written as zeros.
pub fn read_snapshot(b: &[u8]) -> (r: Result<Snapshot, LtxError>)
    ensures
        match (r, snapshot_of(b@)) {
            (Ok(s), Ok((h, db, t))) => s.header == h && s.db@ == db && s.trailer == t
                && s.db@.len() == h.page_size * h.commit,
            (Err(e), Err(se)) => e == se,
            _ => false,
        },
        r matches Ok(s) ==> whole_blocks(b@, s.header, s.header.commit as nat),
{
    let mut dec = Decoder::new(b);
    assert(b@.skip(0) =~= b@);
    let header = match dec.decode_header() {
        Ok(h) => h,
        Err(e) => return Err(e),
    };
    if !header.is_snapshot() {
        return Err(LtxError::NotASnapshot);
    }
    let page_size: usize = header.page_size as usize;
    let lock = lock_pgno(header.page_size);
    proof {
        assert(0 <= header.page_size * header.commit <= 65536 * 0xFFFF_FFFF) by (nonlinear_arith)
            requires
                header.page_size <= 65536,
        ;
    }
    let total: u64 = header.page_size as u64 * header.commit as u64;
    if total > usize::MAX as u64 {
        return Err(LtxError::ImageTooLarge { pages: header.commit as u64 });
    }
    let mut db: Vec<u8> = vec![0u8; total as usize];
    let mut buf: Vec<u8> = vec![0u8; page_size];
    assert(db@ =~= zeros(total as nat));
    assert(buf@ =~= zeros(page_size as nat));
    let mut pgno: u32 = 0;
    while pgno < header.commit
        invariant
            pgno <= header.commit,
            lock == lock_page(header.page_size),
            page_size == header.page_size,
            page_size > 0,
            total == header.page_size * header.commit,
            total <= usize::MAX,
            db@.len() == total,
            buf@.len() == page_size,
            stream_header_of(b@) == Ok::<Header, LtxError>(header),
            header.min_txid == 1,
            dec.wf(),
            dec.input() == b@,
            dec.spec_header() == Some(header),
            dec.spec_stage() == DecoderStage::Page,
            rebuild(b@, header, pgno as nat) == Ok::<Rebuild, LtxError>(
                Rebuild { db: db@, buf: buf@, at: dec.progress() },
            ),
            whole_blocks(b@, header, pgno as nat),
        decreases header.commit - pgno,
    {
        pgno += 1;
        if pgno != lock {
            proof {
                assert((pgno - 1) * page_size + page_size <= total && 0 <= (pgno - 1) * page_size)
                    by (nonlinear_arith)
                    requires
                        1 <= pgno <= header.commit,
                        total == page_size * header.commit,
                        page_size > 0,
                ;
            }
            let start: usize = (pgno - 1) as usize * page_size;
            let got = match dec.decode_page(&mut buf) {
                Ok(x) => x,
                Err(e) => {
                    proof {
                        lemma_rebuild_error(b@, header, pgno as nat, header.commit as nat);
                    }
                    return Err(e);
                },
            };
            match got {
                Some(ph) if ph.pgno == pgno => {
                    copy_at(&mut db, start, &buf);
                },
                other => {
                    let got_pgno: u32 = match other {
                        Some(ph) => ph.pgno,
                        None => 0,
                    };
                    proof {
                        lemma_rebuild_error(b@, header, pgno as nat, header.commit as nat);
                    }
                    return Err(LtxError::UnexpectedPage { expected: pgno, got: got_pgno });
                },
            }
        }
    }
    match dec.decode_page(&mut buf) {
        Err(e) => return Err(e),
        Ok(Some(_)) => return Err(LtxError::NotASnapshot),
        Ok(None) => {},
    }
    match dec.finish() {
        Ok(trailer) => Ok(Snapshot { header, db, trailer }),
        Err(e) => Err(e),
    }
}

} // verus!
