//! Reading LTX files.
//!
//! [`read_file`] decodes a whole file through its page index and understands
//! both page formats, LZ4 block and LZ4 frame. [`Decoder`] walks a file from
//! front to back and feeds the running checksum exactly as the encoder did, so
//! [`Decoder::finish`] can confirm the file checksum bit for bit; it reads the
//! block format only.

use crate::ltx::checksum::{Checksum, Hasher, flagged_crc64};
use crate::ltx::encoder::zeros;
use crate::ltx::error::LtxError;
use crate::ltx::format::{
    HEADER_SIZE, Header, PAGE_HEADER_FLAG_SIZE, PAGE_HEADER_SIZE, PageHeader, TRAILER_SIZE, Trailer,
    field, header_of, page_header_of, trailer_of, valid_page_size,
};
use crate::ltx::index::{PageIndexElem, find_index, index_start, page_index, page_index_of};
use crate::ltx::lz4::{
    MAX_BLOCK_LEN, decompress_block, decompress_frame, lz4_block_into, lz4_frame_content,
};
use crate::wire::be_u32;
use vstd::prelude::*;
use vstd::slice::slice_subrange;

verus! {

/// Whether a page header announces an LZ4 block.
pub open spec fn block_compressed(ph: PageHeader) -> bool {
    ph.flags & PAGE_HEADER_FLAG_SIZE != 0
}

/// What decoding the page frame `f` (page header and compressed data) gives,
/// for pages of `page_size` bytes.
pub open spec fn page_frame_of(f: Seq<u8>, page_size: nat) -> Result<
    (PageHeader, Seq<u8>),
    LtxError,
> {
    match page_header_of(f) {
        Err(e) => Err(e),
        Ok(ph) => if block_compressed(ph) {
            if f.len() < 10 {
                Err(LtxError::ShortBuffer { need: 10, got: f.len() as usize })
            } else {
                block_frame_of(ph, f.skip(10), field(f, 6, 4), page_size, f.len())
            }
        } else {
            match lz4_frame_content(f.skip(6)) {
                None => Err(LtxError::Frame),
                Some(d) => exact_page(ph, d, d.len(), page_size),
            }
        },
    }
}

/// What decoding a block of `n` bytes at the front of `b` gives.
pub open spec fn block_frame_of(
    ph: PageHeader,
    b: Seq<u8>,
    n: nat,
    page_size: nat,
    got: nat,
) -> Result<(PageHeader, Seq<u8>), LtxError> {
    if b.len() < n {
        Err(LtxError::ShortBuffer { need: saturated(n + 10), got: got as usize })
    } else if n > MAX_BLOCK_LEN {
        Err(LtxError::BlockTooLong { len: n as u32 })
    } else {
        match lz4_block_into(b.take(n as int), zeros(page_size)) {
            Err(e) => Err(LtxError::Lz4(e)),
            Ok((count, d)) => exact_page(ph, d, count as nat, page_size),
        }
    }
}

/// A decoded page of `n` bytes, if these are the bytes of a page.
pub open spec fn exact_page(ph: PageHeader, d: Seq<u8>, n: nat, page_size: nat) -> Result<
    (PageHeader, Seq<u8>),
    LtxError,
> {
    if n != page_size || d.len() != page_size {
        Err(LtxError::WrongPageLength { expected: page_size as u32, got: n as usize })
    } else {
        Ok((ph, d))
    }
}

/// `n`, or the greatest `usize` where `n` is beyond it.
pub open spec fn saturated(n: nat) -> usize {
    if n > usize::MAX {
        usize::MAX
    } else {
        n as usize
    }
}

/// A buffer of `n` zero bytes.
fn zeroed(n: usize) -> (v: Vec<u8>)
    ensures
        v@ == zeros(n as nat),
{
    let v: Vec<u8> = vec![0u8; n];
    assert(v@ =~= zeros(n as nat));
    v
}

/// Decodes one page frame (page header and compressed data), in either page
/// format. The page must decode to exactly `page_size` bytes.
pub fn decode_page_frame(f: &[u8], page_size: usize) -> (r: Result<(PageHeader, Vec<u8>), LtxError>)
    requires
        page_size <= 65536,
    ensures
        match (r, page_frame_of(f@, page_size as nat)) {
            (Ok((ph, d)), Ok((sph, sd))) => ph == sph && d@ == sd && d@.len() == page_size,
            (Err(e), Err(se)) => e == se,
            _ => false,
        },
{
    let len: usize = f.len();
    let ph = match PageHeader::decode(f) {
        Ok(ph) => ph,
        Err(e) => return Err(e),
    };
    if ph.is_block_compressed() {
        if len < 10 {
            return Err(LtxError::ShortBuffer { need: 10, got: len });
        }
        let n = be_u32(f, 6) as usize;
        if len - 10 < n {
            let need: usize = if n > usize::MAX - 10 {
                usize::MAX
            } else {
                n + 10
            };
            return Err(LtxError::ShortBuffer { need, got: len });
        }
        if n > MAX_BLOCK_LEN {
            return Err(LtxError::BlockTooLong { len: n as u32 });
        }
        let block = slice_subrange(f, 10, 10 + n);
        assert(block@ =~= f@.skip(10).take(n as int));
        let mut d = zeroed(page_size);
        match decompress_block(block, &mut d) {
            Err(e) => Err(LtxError::Lz4(e)),
            Ok(count) => {
                if count != page_size {
                    Err(LtxError::WrongPageLength { expected: page_size as u32, got: count })
                } else {
                    Ok((ph, d))
                }
            },
        }
    } else {
        let frame = slice_subrange(f, PAGE_HEADER_SIZE, len);
        assert(frame@ =~= f@.skip(6));
        match decompress_frame(frame) {
            None => Err(LtxError::Frame),
            Some(d) => {
                if d.len() != page_size {
                    Err(LtxError::WrongPageLength { expected: page_size as u32, got: d.len() })
                } else {
                    Ok((ph, d))
                }
            },
        }
    }
}

/// The bytes of the frame that the index entry `e` points at in the file `b`.
pub open spec fn frame_at(b: Seq<u8>, e: PageIndexElem) -> Result<Seq<u8>, LtxError> {
    let end = e.offset + e.size;
    if end > b.len() {
        Err(LtxError::ShortBuffer { need: saturated(end as nat), got: b.len() as usize })
    } else {
        Ok(b.subrange(e.offset as int, end))
    }
}

/// What decoding the page behind the index entry `e` of the file `b` gives.
#[verifier::opaque]
pub open spec fn indexed_page_of(b: Seq<u8>, e: PageIndexElem, page_size: nat) -> Result<
    (PageHeader, Seq<u8>),
    LtxError,
> {
    match frame_at(b, e) {
        Err(err) => Err(err),
        Ok(f) => page_frame_of(f, page_size),
    }
}

/// A page that decodes has the length of a page.
pub proof fn lemma_indexed_page_len(b: Seq<u8>, e: PageIndexElem, page_size: nat)
    ensures
        indexed_page_of(b, e, page_size) matches Ok((ph, d)) ==> d.len() == page_size,
{
    reveal(indexed_page_of);
}

/// Finds the frame of an index entry in the bytes of a file.
pub fn slice_frame(b: &[u8], e: PageIndexElem) -> (r: Result<&[u8], LtxError>)
    ensures
        match (r, frame_at(b@, e)) {
            (Ok(f), Ok(sf)) => f@ == sf,
            (Err(err), Err(se)) => err == se,
            _ => false,
        },
{
    let len: usize = b.len();
    let end: u128 = e.offset as u128 + e.size as u128;
    if end > len as u128 {
        let need: usize = if end > usize::MAX as u128 {
            usize::MAX
        } else {
            end as usize
        };
        return Err(LtxError::ShortBuffer { need, got: len });
    }
    Ok(slice_subrange(b, e.offset as usize, end as usize))
}

/// Decodes the page behind an index entry.
pub fn decode_indexed_page(b: &[u8], e: PageIndexElem, page_size: usize) -> (r: Result<
    (PageHeader, Vec<u8>),
    LtxError,
>)
    requires
        page_size <= 65536,
    ensures
        match (r, indexed_page_of(b@, e, page_size as nat)) {
            (Ok((ph, d)), Ok((sph, sd))) => ph == sph && d@ == sd && d@.len() == page_size,
            (Err(err), Err(se)) => err == se,
            _ => false,
        },
{
    proof {
        reveal(indexed_page_of);
    }
    match slice_frame(b, e) {
        Err(err) => Err(err),
        Ok(f) => decode_page_frame(f, page_size),
    }
}

/// What a page frame adds to the file checksum: its page header, the size
/// field where there is one, and the uncompressed data.
pub open spec fn frame_hashed(f: Seq<u8>, d: Seq<u8>) -> Seq<u8> {
    if page_header_of(f) is Ok && block_compressed(page_header_of(f)->Ok_0) {
        f.take(10) + d
    } else {
        f.take(6) + d
    }
}

/// A page of a decoded file: number and data.
pub type PageView = (u32, Seq<u8>);

/// The pages behind the first `n` entries of an index, and what they add to
/// the file checksum.
pub open spec fn indexed_pages_of(b: Seq<u8>, es: Seq<PageIndexElem>, page_size: nat, n: nat) -> Result<
    (Seq<PageView>, Seq<u8>),
    LtxError,
>
    decreases n,
{
    if n == 0 {
        Ok((Seq::empty(), Seq::empty()))
    } else {
        match indexed_pages_of(b, es, page_size, (n - 1) as nat) {
            Err(e) => Err(e),
            Ok((pages, hashed)) => match indexed_page_of(b, es[n - 1], page_size) {
                Err(e) => Err(e),
                Ok((ph, d)) => Ok(
                    (
                        pages.push((ph.pgno, d)),
                        hashed + frame_hashed(frame_at(b, es[n - 1])->Ok_0, d),
                    ),
                ),
            },
        }
    }
}

/// A decoded file: its header, its pages, and its verified trailer.
#[verifier::ext_equal]
pub struct FileView {
    pub header: Header,
    pub pages: Seq<PageView>,
    pub trailer: Trailer,
}

/// What the file checksum of `b` must cover, given what its pages add to it.
pub open spec fn covered_by_checksum(b: Seq<u8>, pages_hashed: Seq<u8>, start: int) -> Seq<u8> {
    b.take(HEADER_SIZE as int) + pages_hashed + zeros(6) + b.subrange(start, b.len() - 8)
}

/// What decoding the file `b` gives.
pub open spec fn file_of(b: Seq<u8>) -> Result<FileView, LtxError> {
    match header_of(b) {
        Err(e) => Err(e),
        Ok(h) => match page_index_of(b) {
            Err(e) => Err(e),
            Ok(es) => match indexed_pages_of(b, es, h.page_size as nat, es.len()) {
                Err(e) => Err(e),
                Ok((pages, hashed)) => {
                    let trailer = trailer_of(b.skip(b.len() - TRAILER_SIZE))->Ok_0;
                    let computed = Checksum(
                        flagged_crc64(covered_by_checksum(b, hashed, index_start(b)->Ok_0)),
                    );
                    if computed != trailer.file_checksum {
                        Err(
                            LtxError::FileChecksumMismatch {
                                expected: trailer.file_checksum,
                                actual: computed,
                            },
                        )
                    } else {
                        Ok(FileView { header: h, pages, trailer })
                    }
                },
            },
        },
    }
}

/// A fully decoded LTX file.
#[derive(Debug)]
pub struct DecodedFile {
    pub header: Header,
    /// The pages, in the order of the index.
    pub pages: Vec<(u32, Vec<u8>)>,
    pub trailer: Trailer,
}

/// The numbers and contents of a list of pages.
pub open spec fn pages_view(pages: Seq<(u32, Vec<u8>)>) -> Seq<PageView> {
    pages.map_values(|p: (u32, Vec<u8>)| (p.0, p.1@))
}

impl View for DecodedFile {
    type V = FileView;

    open spec fn view(&self) -> FileView {
        FileView { header: self.header, pages: pages_view(self.pages@), trailer: self.trailer }
    }
}

/// Decodes a whole LTX file through its page index, verifying the file checksum.
pub fn read_file(b: &[u8]) -> (r: Result<DecodedFile, LtxError>)
    ensures
        match (r, file_of(b@)) {
            (Ok(f), Ok(s)) => f@ == s && valid_page_size(f.header.page_size) && forall|k: int|
                0 <= k < f.pages@.len() ==> (#[trigger] f.pages@[k]).1@.len()
                    == f.header.page_size,
            (Err(e), Err(se)) => e == se,
            _ => false,
        },
{
    let len: usize = b.len();
    proof {
        reveal(page_index_of);
    }
    let header = match Header::decode(b) {
        Ok(h) => h,
        Err(e) => return Err(e),
    };
    let start: usize = match find_index(b) {
        Ok(s) => s,
        Err(e) => return Err(e),
    };
    let index = match page_index(b) {
        Ok(es) => es,
        Err(e) => return Err(e),
    };
    let page_size: usize = header.page_size as usize;
    let mut hash = Hasher::new();
    hash.update(slice_subrange(b, 0, HEADER_SIZE));
    let mut pages: Vec<(u32, Vec<u8>)> = Vec::new();
    let mut i: usize = 0;
    assert(pages_view(pages@) =~= Seq::empty());
    assert(hash@ =~= b@.take(HEADER_SIZE as int) + Seq::<u8>::empty());
    let ghost hashed: Seq<u8> = Seq::empty();
    while i < index.len()
        invariant
            i <= index@.len(),
            page_size <= 65536,
            page_size == header.page_size,
            page_index_of(b@) == Ok::<Seq<PageIndexElem>, LtxError>(index@),
            header_of(b@) == Ok::<Header, LtxError>(header),
            indexed_pages_of(b@, index@, page_size as nat, i as nat) == Ok::<
                (Seq<PageView>, Seq<u8>),
                LtxError,
            >((pages_view(pages@), hashed)),
            hash@ == b@.take(HEADER_SIZE as int) + hashed,
            forall|k: int| 0 <= k < pages@.len() ==> (#[trigger] pages@[k]).1@.len() == page_size,
        decreases index@.len() - i,
    {
        let e = index[i];
        let ghost before = pages@;
        proof {
            reveal(indexed_page_of);
        }
        let f = match slice_frame(b, e) {
            Ok(f) => f,
            Err(err) => {
                proof {
                    lemma_pages_error(b@, index@, page_size as nat, (i + 1) as nat, index@.len());
                }
                return Err(err);
            },
        };
        let (ph, d) = match decode_page_frame(f, page_size) {
            Ok(x) => x,
            Err(err) => {
                proof {
                    lemma_pages_error(b@, index@, page_size as nat, (i + 1) as nat, index@.len());
                }
                return Err(err);
            },
        };
        let prefix: usize = if ph.is_block_compressed() {
            10
        } else {
            6
        };
        let head = slice_subrange(f, 0, prefix);
        assert(head@ =~= f@.take(prefix as int));
        hash.update(head);
        hash.update(&d);
        proof {
            let more = frame_hashed(f@, d@);
            assert(hash@ =~= b@.take(HEADER_SIZE as int) + (hashed + more));
            hashed = hashed + more;
        }
        pages.push((ph.pgno, d));
        assert(pages_view(pages@) =~= pages_view(before).push((ph.pgno, d@)));
        i += 1;
    }
    let terminator = zeroed(PAGE_HEADER_SIZE);
    hash.update(&terminator);
    hash.update(slice_subrange(b, start, len - 8));
    assert(hash@ =~= covered_by_checksum(b@, hashed, start as int));
    let tb = slice_subrange(b, len - TRAILER_SIZE, len);
    assert(tb@ =~= b@.skip(b@.len() - TRAILER_SIZE));
    let trailer = match Trailer::decode(tb) {
        Ok(t) => t,
        Err(e) => return Err(e),
    };
    let computed = hash.checksum();
    if computed != trailer.file_checksum {
        return Err(
            LtxError::FileChecksumMismatch { expected: trailer.file_checksum, actual: computed },
        );
    }
    Ok(DecodedFile { header, pages, trailer })
}

proof fn lemma_pages_error(b: Seq<u8>, es: Seq<PageIndexElem>, page_size: nat, i: nat, n: nat)
    requires
        i <= n,
        indexed_pages_of(b, es, page_size, i) is Err,
    ensures
        indexed_pages_of(b, es, page_size, n) == indexed_pages_of(b, es, page_size, i),
    decreases n - i,
{
    if i < n {
        lemma_pages_error(b, es, page_size, i, (n - 1) as nat);
    }
}

} // verus!
