//! What was written can be read back: the laws that tie the encoder to the
//! decoder.

use crate::ltx::checksum::Checksum;
use crate::ltx::decoder::{
    FileView, PageView, covered_by_checksum, file_of, frame_at, frame_hashed, indexed_page_of,
    indexed_pages_of, page_frame_of,
};
use crate::ltx::encoder::{
    PageRec, admissible, body_bytes, body_hashed, entries, entry_of, file_bytes, file_hashed,
    file_trailer, frames_decode, index_section, rec_bytes, rec_hashed, zeros,
};
use crate::ltx::error::LtxError;
use crate::ltx::format::{
    HEADER_SIZE, Header, PAGE_HEADER_FLAG_SIZE, PageHeader, TRAILER_SIZE, header_bytes,
    lemma_header_round_trip, lemma_page_header_round_trip, lemma_trailer_round_trip,
    page_header_bytes, trailer_bytes, valid_page_size,
};
use crate::ltx::index::{
    INDEX_FOOTER_SIZE, PageIndexElem, index_bytes, index_start, lemma_index_round_trip,
    page_index_of,
};
use crate::wire::{be_bytes, lemma_be_bytes_len, lemma_be_round_trip, lemma_pow256_values};
use vstd::prelude::*;

verus! {

/// The number and data of each page.
pub open spec fn page_views(ps: Seq<PageRec>) -> Seq<PageView> {
    ps.map_values(|p: PageRec| (p.pgno, p.data))
}

/// The page block of the first `i` pages is a prefix of the page block.
pub proof fn lemma_body_prefix(ps: Seq<PageRec>, i: int)
    requires
        0 <= i <= ps.len(),
    ensures
        body_bytes(ps.take(i)).len() <= body_bytes(ps).len(),
        body_bytes(ps).take(body_bytes(ps.take(i)).len() as int) == body_bytes(ps.take(i)),
    decreases ps.len() - i,
{
    if i == ps.len() {
        assert(ps.take(i) =~= ps);
        assert(body_bytes(ps).take(body_bytes(ps).len() as int) =~= body_bytes(ps));
    } else {
        lemma_body_prefix(ps, i + 1);
        assert(ps.take(i + 1).drop_last() =~= ps.take(i));
        let small = body_bytes(ps.take(i));
        let mid = body_bytes(ps.take(i + 1));
        let all = body_bytes(ps);
        assert(mid == small + rec_bytes(ps[i]));
        assert(all.take(small.len() as int) =~= mid.take(small.len() as int));
        assert(mid.take(small.len() as int) =~= small);
    }
}

/// Every page of an admissible list can be told apart from the terminator and
/// has the length of a page.
proof fn lemma_admissible_page(h: Header, ps: Seq<PageRec>, i: int)
    requires
        admissible(h, ps),
        0 <= i < ps.len(),
    ensures
        ps[i].pgno > 0,
        ps[i].pgno <= h.commit,
        ps[i].data.len() == h.page_size,
    decreases ps.len(),
{
    if i < ps.len() - 1 {
        lemma_admissible_page(h, ps.drop_last(), i);
    }
}

/// The frame of a page decodes to the page.
proof fn lemma_rec_decodes(p: PageRec, page_size: nat)
    requires
        crate::ltx::lz4::lz4_frame_content(p.frame) == Some(p.data),
        p.data.len() == page_size,
    ensures
        page_frame_of(rec_bytes(p), page_size) == Ok::<(PageHeader, Seq<u8>), LtxError>(
            (PageHeader { pgno: p.pgno, flags: 0 }, p.data),
        ),
        frame_hashed(rec_bytes(p), p.data) == rec_hashed(p),
{
    let ph = PageHeader { pgno: p.pgno, flags: 0 };
    lemma_page_header_round_trip(ph, p.frame);
    assert(0u16 & PAGE_HEADER_FLAG_SIZE == 0) by (bit_vector);
    assert(rec_bytes(p).skip(6) =~= p.frame);
    assert(rec_bytes(p).take(6) =~= page_header_bytes(ph));
}

proof fn lemma_indexed_pages(
    h: Header,
    ps: Seq<PageRec>,
    b: Seq<u8>,
    suffix: Seq<u8>,
    page_size: nat,
    n: nat,
)
    requires
        admissible(h, ps),
        frames_decode(ps),
        page_size == h.page_size,
        b == header_bytes(h) + body_bytes(ps) + suffix,
        header_bytes(h).len() == HEADER_SIZE,
        b.len() <= u64::MAX,
        n <= ps.len(),
    ensures
        indexed_pages_of(b, entries(ps), page_size, n) == Ok::<(Seq<PageView>, Seq<u8>), LtxError>(
            (page_views(ps.take(n as int)), body_hashed(ps.take(n as int))),
        ),
    decreases n,
{
    if n == 0 {
        assert(page_views(ps.take(0)) =~= Seq::empty());
        assert(body_hashed(ps.take(0)) =~= Seq::empty());
    } else {
        let i = n - 1;
        reveal(indexed_page_of);
        lemma_indexed_pages(h, ps, b, suffix, page_size, i as nat);
        lemma_body_prefix(ps, i);
        lemma_body_prefix(ps, i + 1);
        lemma_admissible_page(h, ps, i);
        let p = ps[i];
        let small = body_bytes(ps.take(i));
        let all = body_bytes(ps);
        assert(ps.take(i + 1).drop_last() =~= ps.take(i));
        assert(body_bytes(ps.take(i + 1)) == small + rec_bytes(p));
        let e = entries(ps)[i];
        assert(e == entry_of(ps, i));
        assert(e.offset == HEADER_SIZE + small.len());
        assert(e.size == rec_bytes(p).len());
        assert(b.subrange(e.offset as int, e.offset + e.size) =~= all.take(
            (small + rec_bytes(p)).len() as int,
        ).skip(small.len() as int));
        assert((small + rec_bytes(p)).skip(small.len() as int) =~= rec_bytes(p));
        assert(frame_at(b, e) == Ok::<Seq<u8>, LtxError>(rec_bytes(p)));
        lemma_rec_decodes(p, page_size);
        assert(page_views(ps.take(n as int)) =~= page_views(ps.take(i)).push((p.pgno, p.data)));
        assert(body_hashed(ps.take(n as int)) == body_hashed(ps.take(i)) + rec_hashed(p));
    }
}

/// The index of a written file is found and parsed back.
proof fn lemma_index_found(es: Seq<PageIndexElem>, front: Seq<u8>, t: Seq<u8>)
    requires
        forall|i: int| 0 <= i < es.len() ==> (#[trigger] es[i]).pgno > 0,
        front.len() >= HEADER_SIZE,
        t.len() == TRAILER_SIZE,
        (front + index_section(es) + t).len() <= u64::MAX,
    ensures
        index_start(front + index_section(es) + t) == Ok::<int, LtxError>(front.len() as int),
        page_index_of(front + index_section(es) + t) == Ok::<Seq<PageIndexElem>, LtxError>(es),
{
    reveal(page_index_of);
    let b = front + index_section(es) + t;
    let ib = index_bytes(es);
    lemma_pow256_values();
    lemma_be_round_trip(ib.len(), 8);
    let at = b.len() - INDEX_FOOTER_SIZE as int;
    assert(at == front.len() + ib.len());
    assert(b.subrange(at, at + 8) =~= be_bytes(ib.len(), 8));
    assert(b.subrange(front.len() as int, at) =~= ib + Seq::<u8>::empty());
    lemma_index_round_trip(es, Seq::empty());
}

/// The page index of a written file reads back as it was written.
pub proof fn lemma_index_read_back(h: Header, ps: Seq<PageRec>, post: Checksum)
    requires
        valid_page_size(h.page_size),
        admissible(h, ps),
        file_bytes(h, ps, post).len() <= u64::MAX,
    ensures
        index_start(file_bytes(h, ps, post)) == Ok::<int, LtxError>(
            HEADER_SIZE + body_bytes(ps).len() + 6,
        ),
        page_index_of(file_bytes(h, ps, post)) == Ok::<Seq<PageIndexElem>, LtxError>(entries(ps)),
{
    let b = file_bytes(h, ps, post);
    let t = file_trailer(h, ps, post);
    let es = entries(ps);
    lemma_header_round_trip(h, Seq::empty());
    lemma_trailer_round_trip(t, Seq::empty());
    assert forall|i: int| 0 <= i < es.len() implies (#[trigger] es[i]).pgno > 0 by {
        lemma_admissible_page(h, ps, i);
    }
    let front = header_bytes(h) + body_bytes(ps) + zeros(6);
    assert(b =~= front + index_section(es) + trailer_bytes(t));
    lemma_index_found(es, front, trailer_bytes(t));
}

/// A file that was written with valid pages reads back as it was written: the
/// same header, the same pages in the same order, and the same trailer. The
/// bound is that of a file that fits in a buffer.
pub proof fn lemma_file_round_trip(h: Header, ps: Seq<PageRec>, post: Checksum)
    requires
        valid_page_size(h.page_size),
        admissible(h, ps),
        frames_decode(ps),
        file_bytes(h, ps, post).len() <= u64::MAX,
    ensures
        file_of(file_bytes(h, ps, post)) == Ok::<FileView, LtxError>(
            FileView { header: h, pages: page_views(ps), trailer: file_trailer(h, ps, post) },
        ),
{
    let b = file_bytes(h, ps, post);
    let t = file_trailer(h, ps, post);
    let es = entries(ps);
    let tail = zeros(6) + index_section(es) + trailer_bytes(t);
    lemma_header_round_trip(h, body_bytes(ps) + tail);
    assert(b =~= header_bytes(h) + (body_bytes(ps) + tail));
    lemma_trailer_round_trip(t, Seq::empty());
    let front = header_bytes(h) + body_bytes(ps) + zeros(6);
    assert(b =~= front + index_section(es) + trailer_bytes(t));
    lemma_index_read_back(h, ps, post);
    assert(b =~= header_bytes(h) + body_bytes(ps) + tail);
    lemma_indexed_pages(h, ps, b, tail, h.page_size as nat, ps.len());
    assert(ps.take(ps.len() as int) =~= ps);
    assert(b.skip(b.len() - TRAILER_SIZE) =~= trailer_bytes(t) + Seq::<u8>::empty());
    lemma_be_bytes_len(post.0 as nat, 8);
    lemma_be_bytes_len(t.file_checksum.0 as nat, 8);
    assert(trailer_bytes(t).take(8) =~= be_bytes(post.0 as nat, 8));
    let covered = covered_by_checksum(b, body_hashed(ps), front.len() as int);
    assert(b.take(HEADER_SIZE as int) =~= header_bytes(h));
    assert(b.subrange(front.len() as int, b.len() - 8) =~= index_section(es) + be_bytes(
        post.0 as nat,
        8,
    ));
    assert(covered =~= file_hashed(h, ps, post));
}

/// The file checksum does not depend on how the pages were compressed: the same
/// pages framed in the same number of bytes each, but otherwise differently,
/// give the same checksum.
pub proof fn lemma_checksum_ignores_frames(
    h: Header,
    ps: Seq<PageRec>,
    qs: Seq<PageRec>,
    post: Checksum,
)
    requires
        page_views(ps) == page_views(qs),
        forall|i: int|
            0 <= i < ps.len() ==> (#[trigger] ps[i]).frame.len() == qs[i].frame.len(),
    ensures
        file_trailer(h, ps, post) == file_trailer(h, qs, post),
{
    lemma_same_views(ps, qs);
    assert(page_views(ps).len() == ps.len());
    assert(page_views(qs).len() == qs.len());
    assert(body_hashed(ps) == body_hashed(qs));
    assert forall|i: int| 0 <= i < ps.len() implies entry_of(ps, i) == entry_of(qs, i) by {
        lemma_same_lengths(ps, qs, i);
        assert(page_views(ps)[i] == page_views(qs)[i]);
        assert(rec_bytes(ps[i]).len() == rec_bytes(qs[i]).len());
    }
    assert(entries(ps) =~= entries(qs));
}

proof fn lemma_same_views(ps: Seq<PageRec>, qs: Seq<PageRec>)
    requires
        page_views(ps) == page_views(qs),
    ensures
        body_hashed(ps) == body_hashed(qs),
    decreases ps.len(),
{
    assert(page_views(ps).len() == ps.len());
    assert(page_views(qs).len() == qs.len());
    if ps.len() > 0 {
        assert(page_views(ps.drop_last()) =~= page_views(ps).drop_last());
        assert(page_views(qs.drop_last()) =~= page_views(qs).drop_last());
        assert(page_views(ps).last() == page_views(qs).last());
        lemma_same_views(ps.drop_last(), qs.drop_last());
    }
}

proof fn lemma_same_lengths(ps: Seq<PageRec>, qs: Seq<PageRec>, i: int)
    requires
        ps.len() == qs.len(),
        page_views(ps) == page_views(qs),
        0 <= i <= ps.len(),
        forall|k: int|
            0 <= k < ps.len() ==> (#[trigger] ps[k]).frame.len() == qs[k].frame.len(),
    ensures
        body_bytes(ps.take(i)).len() == body_bytes(qs.take(i)).len(),
    decreases i,
{
    if i > 0 {
        lemma_same_lengths(ps, qs, i - 1);
        assert(ps.take(i).drop_last() =~= ps.take(i - 1));
        assert(qs.take(i).drop_last() =~= qs.take(i - 1));
        assert(page_views(ps)[i - 1] == page_views(qs)[i - 1]);
        assert(ps[i - 1].frame.len() == qs[i - 1].frame.len());
    } else {
        assert(ps.take(0) =~= qs.take(0));
    }
}

} // verus!
