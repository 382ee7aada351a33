//! Writing LTX files.
//!
//! [`Encoder`] writes the header, then per page `[page-header ‖ lz4-frame]`,
//! then the zero page header, the page index, and the trailer. The running
//! checksum is fed the header, each page's `[page-header ‖ *uncompressed*
//! data]`, the terminator, the index, and the trailer's post-apply field.

use crate::ltx::checksum::{
    Checksum, Hasher, checksum_page, flagged_crc64, fold_checksum, page_checksum,
};
use crate::ltx::decoder::{FileView, file_of};
use crate::ltx::error::LtxError;
use crate::ltx::format::{
    HEADER_SIZE, Header, PageHeader, Trailer, header_bytes, header_validity,
    lemma_header_round_trip, lemma_trailer_round_trip, lock_page, lock_pgno, page_header_bytes, trailer_bytes,
    valid_page_size,
};
use crate::ltx::index::{
    PageIndexElem, append_uvarint, entry_bytes, index_bytes, lemma_uvarint_at_most_ten, uvarint,
};
use crate::ltx::lz4::{MAX_FRAME_LEN, compress_frame, lz4_frame_content, lz4_frame_of};
use crate::ltx::roundtrip::{lemma_file_round_trip, page_views};
use crate::wire::{be_bytes, lemma_be_bytes_len, push_be};
use vstd::prelude::*;
use vstd::slice::slice_subrange;

verus! {

/// One page of an LTX file: its number, its data, and the LZ4 frame of the data.
#[verifier::ext_equal]
pub struct PageRec {
    pub pgno: u32,
    pub data: Seq<u8>,
    pub frame: Seq<u8>,
}

/// What a page occupies in the file: its header and its frame.
pub open spec fn rec_bytes(p: PageRec) -> Seq<u8> {
    page_header_bytes(PageHeader { pgno: p.pgno, flags: 0 }) + p.frame
}

/// What a page adds to the file checksum: its header and its data.
pub open spec fn rec_hashed(p: PageRec) -> Seq<u8> {
    page_header_bytes(PageHeader { pgno: p.pgno, flags: 0 }) + p.data
}

/// The page block of a file, without its terminator.
pub open spec fn body_bytes(ps: Seq<PageRec>) -> Seq<u8>
    decreases ps.len(),
{
    if ps.len() == 0 {
        Seq::empty()
    } else {
        body_bytes(ps.drop_last()) + rec_bytes(ps.last())
    }
}

/// What the pages add to the file checksum.
pub open spec fn body_hashed(ps: Seq<PageRec>) -> Seq<u8>
    decreases ps.len(),
{
    if ps.len() == 0 {
        Seq::empty()
    } else {
        body_hashed(ps.drop_last()) + rec_hashed(ps.last())
    }
}

/// The index entry of page `i`: where its frame starts, and how long it is.
pub open spec fn entry_of(ps: Seq<PageRec>, i: int) -> PageIndexElem {
    PageIndexElem {
        pgno: ps[i].pgno,
        offset: (HEADER_SIZE + body_bytes(ps.take(i)).len()) as u64,
        size: rec_bytes(ps[i]).len() as u64,
    }
}

/// The page index of a file.
pub open spec fn entries(ps: Seq<PageRec>) -> Seq<PageIndexElem> {
    Seq::new(ps.len(), |i: int| entry_of(ps, i))
}

/// `n` zero bytes.
pub open spec fn zeros(n: nat) -> Seq<u8> {
    Seq::new(n, |i: int| 0u8)
}

/// The index and its length, as they stand in a file.
pub open spec fn index_section(es: Seq<PageIndexElem>) -> Seq<u8> {
    index_bytes(es) + be_bytes(index_bytes(es).len(), 8)
}

/// Everything the file checksum covers.
pub open spec fn file_hashed(h: Header, ps: Seq<PageRec>, post: Checksum) -> Seq<u8> {
    header_bytes(h) + body_hashed(ps) + zeros(6) + index_section(entries(ps)) + be_bytes(
        post.0 as nat,
        8,
    )
}

/// The trailer of a file.
pub open spec fn file_trailer(h: Header, ps: Seq<PageRec>, post: Checksum) -> Trailer {
    Trailer {
        post_apply_checksum: post,
        file_checksum: Checksum(flagged_crc64(file_hashed(h, ps, post))),
    }
}

/// The bytes of the file with header `h`, pages `ps` and post-apply checksum
/// `post`.
pub open spec fn file_bytes(h: Header, ps: Seq<PageRec>, post: Checksum) -> Seq<u8> {
    header_bytes(h) + body_bytes(ps) + zeros(6) + index_section(entries(ps)) + trailer_bytes(
        file_trailer(h, ps, post),
    )
}

/// Whether a page may follow `prev` (0 at the start) in a file with header `h`,
/// and if not, why.
pub open spec fn page_admission(h: Header, prev: u32, pgno: u32, len: nat) -> Result<(), LtxError> {
    let lock = lock_page(h.page_size);
    if len != h.page_size {
        Err(LtxError::WrongPageLength { expected: h.page_size, got: len as usize })
    } else if pgno == 0 {
        Err(LtxError::ZeroPageNumber)
    } else if pgno > h.commit {
        Err(LtxError::PageBeyondCommit { pgno, commit: h.commit })
    } else if pgno == lock {
        Err(LtxError::LockPageEncoded(pgno))
    } else if (h.min_txid == 1 && pgno != snapshot_successor(h.page_size, prev)) || (h.min_txid != 1
        && pgno <= prev) {
        Err(LtxError::PageOutOfOrder { prev, pgno })
    } else {
        Ok(())
    }
}

/// The page that follows `prev` in a snapshot: the next one, or the one after
/// it where the next is the lock page.
pub open spec fn snapshot_successor(page_size: u32, prev: u32) -> int {
    if prev != 0 && prev == lock_page(page_size) - 1 {
        prev + 2
    } else {
        prev + 1
    }
}

/// The number of the last page of `ps`, or 0.
pub open spec fn last_pgno(ps: Seq<PageRec>) -> u32 {
    if ps.len() == 0 {
        0
    } else {
        ps.last().pgno
    }
}

/// Every page was admissible after the ones before it.
pub open spec fn admissible(h: Header, ps: Seq<PageRec>) -> bool
    decreases ps.len(),
{
    ps.len() == 0 || {
        let p = ps.last();
        &&& admissible(h, ps.drop_last())
        &&& page_admission(h, last_pgno(ps.drop_last()), p.pgno, p.data.len()) is Ok
    }
}

/// The frame of every page decodes to its data.
pub open spec fn frames_decode(ps: Seq<PageRec>) -> bool {
    forall|i: int|
        0 <= i < ps.len() ==> lz4_frame_content((#[trigger] ps[i]).frame) == Some(ps[i].data)
}

proof fn lemma_push_body(ps: Seq<PageRec>, p: PageRec)
    ensures
        body_bytes(ps.push(p)) == body_bytes(ps) + rec_bytes(p),
        body_hashed(ps.push(p)) == body_hashed(ps) + rec_hashed(p),
        entries(ps.push(p)) == entries(ps).push(
            PageIndexElem {
                pgno: p.pgno,
                offset: (HEADER_SIZE + body_bytes(ps).len()) as u64,
                size: rec_bytes(p).len() as u64,
            },
        ),
{
    assert(ps.push(p).drop_last() =~= ps);
    assert forall|i: int| 0 <= i < ps.len() implies #[trigger] ps.push(p).take(i) == ps.take(i) by {
        assert(ps.push(p).take(i) =~= ps.take(i));
    }
    assert(ps.push(p).take(ps.len() as int) =~= ps);
    assert(entries(ps.push(p)) =~= entries(ps).push(
        PageIndexElem {
            pgno: p.pgno,
            offset: (HEADER_SIZE + body_bytes(ps).len()) as u64,
            size: rec_bytes(p).len() as u64,
        },
    ));
}

/// The bytes of index entries, without the end marker.
spec fn entries_bytes(es: Seq<PageIndexElem>) -> Seq<u8>
    decreases es.len(),
{
    if es.len() == 0 {
        Seq::empty()
    } else {
        entries_bytes(es.drop_last()) + entry_bytes(es.last())
    }
}

proof fn lemma_entries_front(es: Seq<PageIndexElem>)
    requires
        es.len() > 0,
    ensures
        entries_bytes(es) == entry_bytes(es.first()) + entries_bytes(es.drop_first()),
    decreases es.len(),
{
    if es.len() == 1 {
        assert(es.drop_last() =~= Seq::empty());
        assert(es.drop_first() =~= Seq::empty());
        assert(entries_bytes(es) =~= entry_bytes(es.first()) + entries_bytes(es.drop_first()));
    } else {
        lemma_entries_front(es.drop_last());
        assert(es.drop_last().drop_first() =~= es.drop_first().drop_last());
        assert(entries_bytes(es) =~= entry_bytes(es.first()) + entries_bytes(es.drop_first()));
    }
}

proof fn lemma_index_bytes(es: Seq<PageIndexElem>)
    ensures
        index_bytes(es) == entries_bytes(es) + uvarint(0),
    decreases es.len(),
{
    if es.len() == 0 {
        assert(index_bytes(es) =~= entries_bytes(es) + uvarint(0));
    } else {
        lemma_entries_front(es);
        lemma_index_bytes(es.drop_first());
        assert(index_bytes(es) =~= entries_bytes(es) + uvarint(0));
    }
}

/// The longest stretch of a file that one page takes: its header and its frame.
pub const MAX_REC_LEN: usize = 65569;

/// An entry of the index takes at most thirty bytes.
proof fn lemma_index_is_short(es: Seq<PageIndexElem>)
    ensures
        index_bytes(es).len() <= 30 * es.len() + 1,
    decreases es.len(),
{
    lemma_index_bytes(es);
    lemma_uvarint_at_most_ten(0);
    if es.len() > 0 {
        lemma_index_is_short(es.drop_last());
        lemma_index_bytes(es.drop_last());
        lemma_uvarint_at_most_ten(es.last().pgno as nat);
        lemma_uvarint_at_most_ten(es.last().offset as nat);
        lemma_uvarint_at_most_ten(es.last().size as nat);
    }
}

/// Which part of the file an encoder writes next.
#[derive(Clone, Copy, Debug, PartialEq, Eq, Structural)]
pub enum EncoderStage {
    Header,
    Page,
    Closed,
}

/// An encoder for a single LTX file. The file can be taken out of it piece by piece
/// with [`Encoder::take_output`], or whole with [`Encoder::into_inner`]; in memory is
/// only what was not taken yet.
pub struct Encoder {
    /// The bytes that were not taken yet.
    out: Vec<u8>,
    /// How many bytes were taken.
    sent: u64,
    taken: Ghost<Seq<u8>>,
    stage: EncoderStage,
    hash: Hasher,
    header: Option<Header>,
    post_apply: Checksum,
    index: Vec<PageIndexElem>,
    prev_pgno: u32,
    pages: Ghost<Seq<PageRec>>,
}

impl Encoder {
    /// Which part of the file comes next.
    pub closed spec fn spec_stage(&self) -> EncoderStage {
        self.stage
    }

    /// The header that was written, if any.
    pub closed spec fn spec_header(&self) -> Option<Header> {
        self.header
    }

    /// The pages that were written.
    pub closed spec fn pages(&self) -> Seq<PageRec> {
        self.pages@
    }

    /// The post-apply checksum as it was last set.
    pub closed spec fn post_apply(&self) -> Checksum {
        self.post_apply
    }

    /// The bytes of the file so far.
    pub closed spec fn output(&self) -> Seq<u8> {
        self.taken@ + self.out@
    }

    /// The bytes that were taken out so far.
    pub closed spec fn taken(&self) -> Seq<u8> {
        self.taken@
    }

    /// What always holds of an encoder: its bytes, checksum and index are those
    /// of the pages it was given.
    pub closed spec fn wf(&self) -> bool {
        &&& self.sent == self.taken@.len()
        &&& self.pages@.len() <= self.prev_pgno
        &&& body_bytes(self.pages@).len() <= self.pages@.len() * MAX_REC_LEN
        &&& self.wf_stage()
    }

    spec fn wf_stage(&self) -> bool {
        match self.stage {
            EncoderStage::Header => {
                &&& self.output() == Seq::<u8>::empty()
                &&& self.hash@ == Seq::<u8>::empty()
                &&& self.header is None
                &&& self.index@ == Seq::<PageIndexElem>::empty()
                &&& self.pages@ == Seq::<PageRec>::empty()
                &&& self.prev_pgno == 0
            },
            EncoderStage::Page => {
                &&& self.header is Some
                &&& header_validity(self.header->0) is Ok
                &&& self.output() == header_bytes(self.header->0) + body_bytes(self.pages@)
                &&& self.hash@ == header_bytes(self.header->0) + body_hashed(self.pages@)
                &&& self.index@ == entries(self.pages@)
                &&& self.prev_pgno == last_pgno(self.pages@)
                &&& admissible(self.header->0, self.pages@)
            },
            EncoderStage::Closed => {
                &&& self.header is Some
                &&& header_validity(self.header->0) is Ok
                &&& self.output() == file_bytes(self.header->0, self.pages@, self.post_apply)
                &&& admissible(self.header->0, self.pages@)
            },
        }
    }

    /// An encoder that has written its header has a valid one, and every page
    /// it accepted was admissible.
    pub proof fn lemma_pages_admissible(&self)
        requires
            self.wf(),
            self.spec_stage() != EncoderStage::Header,
        ensures
            self.spec_header() is Some,
            header_validity(self.spec_header()->0) is Ok,
            admissible(self.spec_header()->0, self.pages()),
    {
    }

    pub fn new() -> (e: Self)
        ensures
            e.wf(),
            e.spec_stage() == EncoderStage::Header,
            e.spec_header() is None,
            e.pages() == Seq::<PageRec>::empty(),
            e.post_apply() == Checksum(0),
            e.output() == Seq::<u8>::empty(),
            e.taken() == Seq::<u8>::empty(),
    {
        let e = Encoder {
            out: Vec::new(),
            sent: 0,
            taken: Ghost(Seq::empty()),
            stage: EncoderStage::Header,
            hash: Hasher::new(),
            header: None,
            post_apply: Checksum(0),
            index: Vec::new(),
            prev_pgno: 0,
            pages: Ghost(Seq::empty()),
        };
        assert(e.output() =~= Seq::empty());
        e
    }

    /// A file of pages is never too long for its offsets.
    pub proof fn lemma_output_fits(&self)
        requires
            self.wf(),
        ensures
            self.output().len() <= 0x4_0000_0000_0000,
    {
        if self.stage != EncoderStage::Header {
            lemma_header_round_trip(self.header->0, Seq::empty());
        }
        if self.stage == EncoderStage::Closed {
            lemma_index_is_short(entries(self.pages@));
            lemma_be_bytes_len(index_bytes(entries(self.pages@)).len(), 8);
            lemma_trailer_round_trip(
                file_trailer(self.header->0, self.pages@, self.post_apply),
                Seq::empty(),
            );
        }
    }

    /// Number of bytes written so far.
    pub fn bytes_written(&self) -> (n: u64)
        requires
            self.wf(),
        ensures
            n == self.output().len(),
    {
        proof {
            self.lemma_output_fits();
        }
        self.sent + self.out.len() as u64
    }

    /// Takes out the bytes that were written since the last call.
    pub fn take_output(&mut self) -> (b: Vec<u8>)
        requires
            old(self).wf(),
        ensures
            final(self).wf(),
            final(self).taken() == old(self).taken() + b@,
            final(self).taken() == old(self).output(),
            final(self).output() == old(self).output(),
            final(self).spec_stage() == old(self).spec_stage(),
            final(self).spec_header() == old(self).spec_header(),
            final(self).pages() == old(self).pages(),
            final(self).post_apply() == old(self).post_apply(),
    {
        proof {
            self.lemma_output_fits();
        }
        let mut b: Vec<u8> = Vec::new();
        std::mem::swap(&mut b, &mut self.out);
        self.sent = self.sent + b.len() as u64;
        self.taken = Ghost(self.taken@ + b@);
        assert(self.output() =~= old(self).output());
        b
    }

    /// The bytes that were not taken yet; after [`Encoder::finish`], the rest of the
    /// file.
    pub fn into_inner(self) -> (b: Vec<u8>)
        ensures
            self.taken() + b@ == self.output(),
            self.taken() == Seq::<u8>::empty() ==> b@ == self.output(),
    {
        assert(self.taken() == Seq::<u8>::empty() ==> self.output() =~= self.out@);
        self.out
    }

    /// Appends `b` to the file, feeding the file checksum.
    fn write_hashed(&mut self, b: &[u8])
        ensures
            final(self).output() == old(self).output() + b@,
            final(self).taken == old(self).taken,
            final(self).sent == old(self).sent,
            final(self).hash@ == old(self).hash@ + b@,
            final(self).stage == old(self).stage,
            final(self).header == old(self).header,
            final(self).post_apply == old(self).post_apply,
            final(self).index == old(self).index,
            final(self).prev_pgno == old(self).prev_pgno,
            final(self).pages == old(self).pages,
    {
        self.out.extend_from_slice(b);
        self.hash.update(b);
        assert(self.output() =~= old(self).output() + b@);
    }

    /// Writes the header frame. Must be called first.
    pub fn encode_header(&mut self, header: Header) -> (r: Result<(), LtxError>)
        requires
            old(self).wf(),
            old(self).spec_stage() == EncoderStage::Header,
        ensures
            r == header_validity(header),
            final(self).wf(),
            final(self).post_apply() == old(self).post_apply(),
            final(self).pages() == Seq::<PageRec>::empty(),
            final(self).taken() == old(self).taken(),
            match r {
                Ok(()) => final(self).spec_stage() == EncoderStage::Page
                    && final(self).spec_header() == Some(header) && final(self).output()
                    == header_bytes(header),
                Err(_) => *final(self) == *old(self),
            },
    {
        match header.validate() {
            Ok(()) => {},
            Err(e) => return Err(e),
        }
        let b = header.encode();
        self.write_hashed(&b);
        self.header = Some(header);
        self.stage = EncoderStage::Page;
        assert(self.output() =~= header_bytes(header) + body_bytes(self.pages@));
        assert(self.hash@ =~= header_bytes(header) + body_hashed(self.pages@));
        assert(self.output() =~= header_bytes(header));
        assert(self.index@ =~= entries(self.pages@));
        Ok(())
    }

    /// Sets the post-apply (rolling database) checksum. Call before
    /// [`Encoder::finish`].
    pub fn set_post_apply_checksum(&mut self, c: Checksum)
        requires
            old(self).wf(),
            old(self).spec_stage() != EncoderStage::Closed,
        ensures
            final(self).wf(),
            final(self).post_apply() == c,
            final(self).spec_stage() == old(self).spec_stage(),
            final(self).spec_header() == old(self).spec_header(),
            final(self).pages() == old(self).pages(),
            final(self).output() == old(self).output(),
            final(self).taken() == old(self).taken(),
    {
        self.post_apply = c;
    }

    /// Whether [`Encoder::encode_page`] would accept a page of `len` bytes with
    /// this number next, and if not, why.
    pub fn check_page(&self, pgno: u32, len: usize) -> (r: Result<(), LtxError>)
        requires
            self.wf(),
            self.spec_stage() == EncoderStage::Page,
        ensures
            r == page_admission(
                self.spec_header()->0,
                last_pgno(self.pages()),
                pgno,
                len as nat,
            ),
    {
        let header = match self.header {
            Some(h) => h,
            None => return Ok(()),
        };
        if len != header.page_size as usize {
            return Err(LtxError::WrongPageLength { expected: header.page_size, got: len });
        }
        if pgno == 0 {
            return Err(LtxError::ZeroPageNumber);
        }
        if pgno > header.commit {
            return Err(LtxError::PageBeyondCommit { pgno, commit: header.commit });
        }
        let lock = lock_pgno(header.page_size);
        if pgno == lock {
            return Err(LtxError::LockPageEncoded(pgno));
        }
        if header.is_snapshot() {
            let next: u64 = if self.prev_pgno == 0 {
                1
            } else if self.prev_pgno == lock - 1 {
                self.prev_pgno as u64 + 2
            } else {
                self.prev_pgno as u64 + 1
            };
            if pgno as u64 != next {
                return Err(LtxError::PageOutOfOrder { prev: self.prev_pgno, pgno });
            }
        } else if pgno <= self.prev_pgno {
            return Err(LtxError::PageOutOfOrder { prev: self.prev_pgno, pgno });
        }
        Ok(())
    }

    /// Writes the frame of one page that [`Encoder::check_page`] accepts:
    /// `frame` goes into the file, `data` into the checksum.
    pub fn append_frame(&mut self, pgno: u32, data: &[u8], frame: &[u8])
        requires
            old(self).wf(),
            old(self).spec_stage() == EncoderStage::Page,
            page_admission(
                old(self).spec_header()->0,
                last_pgno(old(self).pages()),
                pgno,
                data@.len(),
            ) is Ok,
            frame@.len() <= MAX_FRAME_LEN,
        ensures
            final(self).wf(),
            final(self).spec_stage() == EncoderStage::Page,
            final(self).spec_header() == old(self).spec_header(),
            final(self).post_apply() == old(self).post_apply(),
            final(self).taken() == old(self).taken(),
            final(self).pages() == old(self).pages().push(
                PageRec { pgno, data: data@, frame: frame@ },
            ),
            final(self).output() == old(self).output() + rec_bytes(
                PageRec { pgno, data: data@, frame: frame@ },
            ),
    {
        let ghost p = PageRec { pgno, data: data@, frame: frame@ };
        let ghost ps = self.pages@;
        let ghost h = self.header->0;
        proof {
            self.lemma_output_fits();
        }
        let offset: u64 = self.sent + self.out.len() as u64;
        let ph = PageHeader { pgno, flags: 0 };
        let hb = ph.encode();
        self.write_hashed(&hb);
        let ghost mid = self.output();
        self.out.extend_from_slice(frame);
        assert(self.output() =~= mid + frame@);
        self.hash.update(data);
        let size: u64 = hb.len() as u64 + frame.len() as u64;
        self.index.push(PageIndexElem { pgno, offset, size });
        self.prev_pgno = pgno;
        self.pages = Ghost(ps.push(p));
        proof {
            lemma_push_body(ps, p);
            lemma_header_round_trip(h, Seq::empty());
            assert(self.output() =~= old(self).output() + rec_bytes(p));
            assert(self.output() =~= header_bytes(h) + body_bytes(ps.push(p)));
            assert(self.hash@ =~= header_bytes(h) + body_hashed(ps.push(p)));
            assert(ps.push(p).drop_last() =~= ps);
        }
    }

    /// Writes one page frame. Pages must be strictly ascending by `pgno`
    /// (snapshots additionally must start at 1 and be contiguous, skipping the
    /// lock page). `data` must be `page_size` bytes.
    pub fn encode_page(&mut self, pgno: u32, data: &[u8]) -> (r: Result<(), LtxError>)
        requires
            old(self).wf(),
            old(self).spec_stage() == EncoderStage::Page,
        ensures
            final(self).wf(),
            r == encode_page_result(
                old(self).spec_header()->0,
                last_pgno(old(self).pages()),
                pgno,
                data@,
            ),
            final(self).spec_stage() == EncoderStage::Page,
            final(self).spec_header() == old(self).spec_header(),
            final(self).post_apply() == old(self).post_apply(),
            final(self).taken() == old(self).taken(),
            match r {
                Ok(()) => {
                    let p = page_rec(pgno, data@);
                    &&& final(self).pages() == old(self).pages().push(p)
                    &&& final(self).output() == old(self).output() + rec_bytes(p)
                    &&& lz4_frame_content(p.frame) == Some(data@)
                },
                Err(_) => *final(self) == *old(self),
            },
    {
        proof {
            reveal(encode_page_result);
        }
        match self.check_page(pgno, data.len()) {
            Ok(()) => {},
            Err(e) => return Err(e),
        }
        let frame = compress_frame(data);
        self.append_frame(pgno, data, &frame);
        Ok(())
    }

    /// Writes the index: the entries, the end marker, then the length of both.
    /// Pages are accepted in ascending order only, so the entries are sorted.
    fn encode_page_index(&mut self)
        requires
            old(self).stage == EncoderStage::Page,
            old(self).index@ == entries(old(self).pages@),
        ensures
            final(self).output() == old(self).output() + index_section(entries(old(self).pages@)),
            final(self).taken == old(self).taken,
            final(self).sent == old(self).sent,
            final(self).hash@ == old(self).hash@ + index_section(entries(old(self).pages@)),
            final(self).stage == old(self).stage,
            final(self).header == old(self).header,
            final(self).post_apply == old(self).post_apply,
            final(self).prev_pgno == old(self).prev_pgno,
            final(self).pages == old(self).pages,
    {
        let ghost es = self.index@;
        let mut buf: Vec<u8> = Vec::new();
        let mut i: usize = 0;
        while i < self.index.len()
            invariant
                i <= self.index@.len(),
                self.index@ == es,
                buf@ == entries_bytes(es.take(i as int)),
                *self == *old(self),
            decreases self.index@.len() - i,
        {
            let e = self.index[i];
            append_uvarint(&mut buf, e.pgno as u64);
            append_uvarint(&mut buf, e.offset);
            append_uvarint(&mut buf, e.size);
            proof {
                assert(es.take(i + 1).drop_last() =~= es.take(i as int));
                assert(buf@ =~= entries_bytes(es.take(i as int)) + entry_bytes(e));
            }
            i += 1;
        }
        assert(es.take(i as int) =~= es);
        append_uvarint(&mut buf, 0);
        proof {
            lemma_index_bytes(es);
        }
        let n: u64 = buf.len() as u64;
        push_be(&mut buf, n, 8);
        self.write_hashed(&buf);
    }

    /// Writes the terminator, page index, and trailer (computing the file
    /// checksum), returning the finalized trailer.
    pub fn finish(&mut self) -> (r: Result<Trailer, LtxError>)
        requires
            old(self).wf(),
            old(self).spec_stage() == EncoderStage::Page,
        ensures
            final(self).wf(),
            final(self).spec_stage() == EncoderStage::Closed,
            final(self).spec_header() == old(self).spec_header(),
            final(self).pages() == old(self).pages(),
            final(self).post_apply() == old(self).post_apply(),
            final(self).taken() == old(self).taken(),
            r == Ok::<Trailer, LtxError>(
                file_trailer(
                    old(self).spec_header()->0,
                    old(self).pages(),
                    old(self).post_apply(),
                ),
            ),
            final(self).output() == file_bytes(
                old(self).spec_header()->0,
                old(self).pages(),
                old(self).post_apply(),
            ),
    {
        let ghost h = self.header->0;
        let ghost ps = self.pages@;
        let terminator = PageHeader { pgno: 0, flags: 0 }.encode();
        proof {
            lemma_zero_header();
        }
        self.write_hashed(&terminator);
        self.encode_page_index();
        let mut post: Vec<u8> = Vec::new();
        push_be(&mut post, self.post_apply.0, 8);
        self.hash.update(&post);
        assert(self.hash@ =~= file_hashed(h, ps, self.post_apply));
        let trailer = Trailer {
            post_apply_checksum: self.post_apply,
            file_checksum: self.hash.checksum(),
        };
        let tb = trailer.encode();
        self.out.extend_from_slice(&tb);
        assert(self.output() =~= file_bytes(h, ps, self.post_apply));
        self.stage = EncoderStage::Closed;
        Ok(trailer)
    }
}

/// The page that encoding `data` under `pgno` adds to a file.
pub open spec fn page_rec(pgno: u32, data: Seq<u8>) -> PageRec {
    PageRec { pgno, data, frame: lz4_frame_of(data) }
}

/// What [`Encoder::encode_page`] returns after a last page `prev`.
#[verifier::opaque]
pub open spec fn encode_page_result(h: Header, prev: u32, pgno: u32, data: Seq<u8>) -> Result<
    (),
    LtxError,
> {
    page_admission(h, prev, pgno, data.len())
}

pub proof fn lemma_zero_header()
    ensures
        page_header_bytes(PageHeader { pgno: 0, flags: 0 }) == zeros(6),
{
    reveal_with_fuel(be_bytes, 5);
    assert(be_bytes(0, 4) =~= zeros(4));
    assert(be_bytes(0, 2) =~= zeros(2));
    assert(page_header_bytes(PageHeader { pgno: 0, flags: 0 }) =~= zeros(6));
}

/// The bytes of page `pgno` (1-based) of the database image `db`.
pub open spec fn db_page(db: Seq<u8>, page_size: u32, pgno: int) -> Seq<u8> {
    db.subrange((pgno - 1) * page_size, (pgno - 1) * page_size + page_size)
}

/// The header of a snapshot of `commit` pages.
pub open spec fn snapshot_header(page_size: u32, commit: u32, max_txid: u64, timestamp: i64) -> Header {
    Header {
        flags: 0,
        page_size,
        commit,
        min_txid: 1,
        max_txid,
        timestamp,
        pre_apply_checksum: Checksum(0),
        wal_offset: 0,
        wal_size: 0,
        wal_salt1: 0,
        wal_salt2: 0,
        node_id: 0,
    }
}

/// The first `n` pages of `db` without the lock page, each with its frame.
pub open spec fn snapshot_recs(db: Seq<u8>, page_size: u32, n: nat) -> Seq<PageRec>
    decreases n,
{
    if n == 0 {
        Seq::empty()
    } else {
        let before = snapshot_recs(db, page_size, (n - 1) as nat);
        if n == lock_page(page_size) {
            before
        } else {
            before.push(page_rec(n as u32, db_page(db, page_size, n as int)))
        }
    }
}

/// The rolling checksum of the first `n` pages of `db` without the lock page.
pub open spec fn snapshot_post(db: Seq<u8>, page_size: u32, n: nat) -> u64
    decreases n,
{
    if n == 0 {
        0
    } else {
        let before = snapshot_post(db, page_size, (n - 1) as nat);
        if n == lock_page(page_size) {
            before
        } else {
            fold_checksum(before, page_checksum(n as u32, db_page(db, page_size, n as int)))
        }
    }
}

/// How many pages a database image of `len` bytes counts.
pub open spec fn snapshot_commit(page_size: u32, len: nat) -> u32 {
    (len / page_size as nat) as u32
}

proof fn lemma_snapshot_next(h: Header, db: Seq<u8>, n: nat)
    requires
        h.min_txid == 1,
        valid_page_size(h.page_size),
        n < h.commit,
        n + 1 != lock_page(h.page_size),
    ensures
        page_admission(
            h,
            last_pgno(snapshot_recs(db, h.page_size, n)),
            (n + 1) as u32,
            h.page_size as nat,
        ) is Ok,
{
    let lock = lock_page(h.page_size);
    assert(lock >= 2) by {
        let sz = h.page_size as int;
        assert(0x4000_0000int / sz >= 1 && 0x4000_0000int / sz <= 0x4000_0000) by (nonlinear_arith)
            requires
                1 <= sz <= 65536,
        ;
    }
    if n > 0 {
        if n == lock {
            let m = (n - 1) as nat;
            assert(snapshot_recs(db, h.page_size, n) == snapshot_recs(db, h.page_size, m));
            assert(last_pgno(snapshot_recs(db, h.page_size, m)) == m);
        } else {
            assert(last_pgno(snapshot_recs(db, h.page_size, n)) == n);
        }
    }
}

/// Encodes a full database image as a single snapshot LTX file, returning its
/// bytes and its trailer.
///
/// `min_txid` is 1 (this is a snapshot); `max_txid` is the transaction the
/// snapshot represents. The lock page (databases above 1 GiB) is skipped.
pub fn write_snapshot(page_size: u32, db: &[u8], max_txid: u64, timestamp_ms: i64) -> (r: Result<
    (Vec<u8>, Trailer),
    LtxError,
>)
    ensures
        ({
            let commit = snapshot_commit(page_size, db@.len());
            let h = snapshot_header(page_size, commit, max_txid, timestamp_ms);
            let ps = snapshot_recs(db@, page_size, commit as nat);
            let post = Checksum(snapshot_post(db@, page_size, commit as nat));
            if page_size == 0 || db@.len() % page_size as nat != 0 {
                r == Err::<(Vec<u8>, Trailer), LtxError>(
                    LtxError::WrongPageLength { expected: page_size, got: db@.len() as usize },
                )
            } else if db@.len() / page_size as nat > u32::MAX {
                r == Err::<(Vec<u8>, Trailer), LtxError>(
                    LtxError::ImageTooLarge { pages: (db@.len() / page_size as nat) as u64 },
                )
            } else if header_validity(h) is Err {
                r == Err::<(Vec<u8>, Trailer), LtxError>(header_validity(h)->Err_0)
            } else {
                &&& r is Ok
                &&& r->Ok_0.0@ == file_bytes(h, ps, post)
                &&& r->Ok_0.1 == file_trailer(h, ps, post)
                &&& file_of(r->Ok_0.0@) == Ok::<FileView, LtxError>(
                    FileView { header: h, pages: page_views(ps), trailer: r->Ok_0.1 },
                )
            }
        }),
{
    let len: usize = db.len();
    if page_size == 0 || len % page_size as usize != 0 {
        return Err(LtxError::WrongPageLength { expected: page_size, got: len });
    }
    let ps: usize = page_size as usize;
    let count: u64 = (len / ps) as u64;
    if count > u32::MAX as u64 {
        return Err(LtxError::ImageTooLarge { pages: count });
    }
    let commit: u32 = count as u32;
    let header = Header {
        flags: 0,
        page_size,
        commit,
        min_txid: 1,
        max_txid,
        timestamp: timestamp_ms,
        pre_apply_checksum: Checksum(0),
        wal_offset: 0,
        wal_size: 0,
        wal_salt1: 0,
        wal_salt2: 0,
        node_id: 0,
    };
    let mut enc = Encoder::new();
    match enc.encode_header(header) {
        Ok(()) => {},
        Err(e) => return Err(e),
    }
    let lock = lock_pgno(page_size);
    let mut post = Checksum(0);
    let mut pgno: u32 = 0;
    while pgno < commit
        invariant
            pgno <= commit,
            ps == page_size,
            len == db@.len(),
            commit <= len / ps,
            commit == snapshot_commit(page_size, len as nat),
            len % ps == 0,
            valid_page_size(page_size),
            header_validity(header) is Ok,
            lock == lock_page(page_size),
            header == snapshot_header(page_size, commit, max_txid, timestamp_ms),
            enc.wf(),
            enc.spec_stage() == EncoderStage::Page,
            enc.spec_header() == Some(header),
            enc.pages() == snapshot_recs(db@, page_size, pgno as nat),
            post.0 == snapshot_post(db@, page_size, pgno as nat),
            frames_decode(enc.pages()),
            enc.taken() == Seq::<u8>::empty(),
        decreases commit - pgno,
    {
        let ghost before = pgno as nat;
        pgno += 1;
        if pgno != lock {
            proof {
                assert((pgno - 1) * ps + ps <= len && 0 <= (pgno - 1) * ps) by (nonlinear_arith)
                    requires
                        1 <= pgno <= len / ps,
                        ps > 0,
                ;
                lemma_snapshot_next(header, db@, before);
                reveal(encode_page_result);
            }
            let start: usize = (pgno - 1) as usize * ps;
            let data = slice_subrange(db, start, start + ps);
            assert(data@ =~= db_page(db@, page_size, pgno as int));
            let ghost old_pages = enc.pages();
            match enc.encode_page(pgno, data) {
                Ok(()) => {},
                Err(e) => return Err(e),
            }
            post = post.fold(checksum_page(pgno, data));
            assert(frames_decode(enc.pages()));
        }
    }
    enc.set_post_apply_checksum(post);
    let trailer = match enc.finish() {
        Ok(t) => t,
        Err(e) => return Err(e),
    };
    let ghost pages = enc.pages();
    proof {
        enc.lemma_pages_admissible();
        enc.lemma_output_fits();
    }
    let out = enc.into_inner();
    proof {
        lemma_file_round_trip(header, pages, post);
    }
    Ok((out, trailer))
}

/// The pages that may come next: whole ones, within the commit size and not the lock page.
/// In a snapshot none may be left out, but for the lock page; in any other file the numbers
/// ascend.
pub proof fn lemma_pages_that_may_follow(e: Encoder, pgno: u32, len: usize, r: Result<(), LtxError>)
    requires
        e.wf(),
        e.spec_stage() == EncoderStage::Page,
        call_ensures(Encoder::check_page, (&e, pgno, len), r),
    ensures
        ({
            let h = e.spec_header()->0;
            let prev = last_pgno(e.pages());
            let lock = lock_page(h.page_size);
            let in_turn = pgno > prev && (h.min_txid == 1 ==> forall|q: u32|
                #![trigger in_between(prev, q, pgno)]
                in_between(prev, q, pgno) ==> q == lock);
            &&& r is Ok <==> {
                &&& len == h.page_size
                &&& 1 <= pgno <= h.commit
                &&& pgno != lock
                &&& in_turn
            }
            &&& r matches Err(x) ==> x == (if len != h.page_size {
                LtxError::WrongPageLength { expected: h.page_size, got: len }
            } else if pgno == 0 {
                LtxError::ZeroPageNumber
            } else if pgno > h.commit {
                LtxError::PageBeyondCommit { pgno, commit: h.commit }
            } else if pgno == lock {
                LtxError::LockPageEncoded(pgno)
            } else {
                LtxError::PageOutOfOrder { prev, pgno }
            })
        }),
{
    let h = e.spec_header()->0;
    let prev = last_pgno(e.pages());
    let lock = lock_page(h.page_size);
    assert(lock >= 2) by {
        let sz = h.page_size as int;
        assert(0x4000_0000int / sz >= 1 && 0x4000_0000int / sz <= 0x4000_0000) by (nonlinear_arith)
            requires
                1 <= sz <= 65536,
        ;
    }
    lemma_prev_is_not_lock(h, e.pages());
    if h.min_txid == 1 && pgno > prev && pgno != lock {
        if pgno > prev + 2 {
            assert(in_between(prev, (prev + 1) as u32, pgno));
            assert(in_between(prev, (prev + 2) as u32, pgno));
        } else if pgno == prev + 2 {
            assert(in_between(prev, (prev + 1) as u32, pgno));
        }
    }
}

/// The page `q` lies strictly between two others.
pub open spec fn in_between(p: u32, q: u32, r: u32) -> bool {
    p < q < r
}

proof fn lemma_prev_is_not_lock(h: Header, ps: Seq<PageRec>)
    requires
        admissible(h, ps),
    ensures
        last_pgno(ps) == lock_page(h.page_size) ==> last_pgno(ps) == 0,
{
}

/// A page is written exactly where it may come next, and is then the last page of the file;
/// a page that is refused changes nothing.
pub proof fn lemma_pages_are_written_in_turn(
    e: &mut Encoder,
    pgno: u32,
    data: &[u8],
    check: Result<(), LtxError>,
    r: Result<(), LtxError>,
)
    requires
        old(e).wf(),
        old(e).spec_stage() == EncoderStage::Page,
        data@.len() <= usize::MAX,
        call_ensures(Encoder::check_page, (old(e), pgno, data@.len() as usize), check),
        call_ensures(Encoder::encode_page, (e, pgno, data), r),
    ensures
        r == check,
        r is Err ==> *final(e) == *old(e),
        r is Ok ==> {
            let ps = final(e).pages();
            &&& ps.len() == old(e).pages().len() + 1
            &&& ps.drop_last() == old(e).pages()
            &&& ps.last().pgno == pgno
            &&& ps.last().data == data@
            &&& lz4_frame_content(ps.last().frame) == Some(data@)
            &&& final(e).output().take(old(e).output().len() as int) == old(e).output()
        },
{
    reveal(encode_page_result);
    if r is Ok {
        assert(final(e).pages().drop_last() =~= old(e).pages());
        assert(final(e).output().take(old(e).output().len() as int) =~= old(e).output());
    }
}

/// A file begins with its header, where that may be written; one that may not be changes
/// nothing.
pub proof fn lemma_header_comes_first(
    e: &mut Encoder,
    header: Header,
    valid: Result<(), LtxError>,
    bytes: Vec<u8>,
    r: Result<(), LtxError>,
)
    requires
        old(e).wf(),
        old(e).spec_stage() == EncoderStage::Header,
        call_ensures(Header::validate, (&header,), valid),
        call_ensures(Header::encode, (&header,), bytes),
        call_ensures(Encoder::encode_header, (e, header), r),
    ensures
        r == valid,
        r is Err ==> *final(e) == *old(e),
        r is Ok ==> final(e).output() == bytes@ && final(e).spec_header() == Some(header)
            && final(e).pages().len() == 0,
{
}

} // verus!
