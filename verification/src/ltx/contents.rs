//! What a file holds: its pages, where they stand, and what its checksums cover.

use crate::ltx::checksum::{Checksum, flagged_crc64, fold_checksum, page_checksum};
use crate::ltx::compactor::{
    buffers, carries, chain_of, compact, compact_header, compact_of, compact_to_writer, headers_of,
    latest_carrier, lemma_merge_keeps_latest, lists, merge_to_writer, sound_inputs,
};
use crate::ltx::decoder::{
    DecodedFile, PageView, decode_indexed_page, decode_page_frame, file_of, indexed_page_of,
    indexed_pages_of, page_frame_of, pages_view, read_file, slice_frame,
};
use crate::ltx::encoder::{
    Encoder, PageRec, body_bytes, db_page, entries, file_bytes, file_trailer, rec_bytes,
    snapshot_commit, snapshot_post, snapshot_recs, write_snapshot, zeros,
};
use crate::ltx::error::LtxError;
use crate::ltx::format::{
    Header, PageHeader, Trailer, header_bytes, header_of, lemma_page_header_round_trip,
    lemma_trailer_round_trip, lock_page, lock_pgno, trailer_bytes, valid_page_size,
};
use crate::ltx::index::{PageIndexElem, index_bytes, page_index, page_index_of};
use crate::ltx::layout::{
    lemma_supported, lemma_word16, lemma_word32, lemma_word64, power_page_size, word16, word32,
    word64,
};
use crate::ltx::lz4::{lz4_block_into, lz4_frame_content};
use crate::ltx::roundtrip::page_views;
use crate::ltx::stream::{
    PageStep, Rebuild, Snapshot, finish_of, lemma_rebuild_error, page_step, read_snapshot, rebuild,
    rolls, whole_blocks,
};
use crate::wire::{be_bytes, lemma_be_bytes_len, lemma_be_round_trip, lemma_pow256_values};
use vstd::prelude::*;

verus! {

/// The page of the database that starts at byte `(pgno - 1) * page_size`.
pub open spec fn image_page(db: Seq<u8>, page_size: u32, pgno: u32) -> Seq<u8> {
    Seq::new(page_size as nat, |i: int| db[(pgno - 1) * page_size + i])
}

/// The rolling checksum of pages: their checksums folded together, from front to back.
pub open spec fn rolling_checksum(pages: Seq<PageView>) -> u64
    decreases pages.len(),
{
    if pages.len() == 0 {
        0
    } else {
        fold_checksum(
            rolling_checksum(pages.drop_last()),
            page_checksum(pages.last().0, pages.last().1),
        )
    }
}

/// A snapshot is written of any image of whole pages of a supported size, no more than can
/// be counted, under a positive TXID.
pub proof fn lemma_images_that_can_be_written(
    page_size: u32,
    db: &[u8],
    max_txid: u64,
    timestamp_ms: i64,
    r: Result<(Vec<u8>, Trailer), LtxError>,
)
    requires
        call_ensures(write_snapshot, (page_size, db, max_txid, timestamp_ms), r),
    ensures
        r is Ok <==> {
            &&& power_page_size(page_size as int)
            &&& db@.len() as int % (page_size as int) == 0
            &&& db@.len() as int / (page_size as int) <= u32::MAX
            &&& max_txid >= 1
        },
{
    lemma_supported(page_size as int);
}

/// A snapshot holds each page of the image but the lock page once, in order and as it is in
/// the image, and its trailer the rolling checksum of those pages.
#[verifier::rlimit(30)]
pub proof fn lemma_snapshot_is_the_image(
    page_size: u32,
    db: &[u8],
    max_txid: u64,
    timestamp_ms: i64,
    r: Result<(Vec<u8>, Trailer), LtxError>,
    bytes: &[u8],
    file: Result<DecodedFile, LtxError>,
    lock: u32,
)
    requires
        call_ensures(write_snapshot, (page_size, db, max_txid, timestamp_ms), r),
        call_ensures(read_file, (bytes,), file),
        call_ensures(lock_pgno, (page_size,), lock),
        r matches Ok((b, _)) && bytes@ == b@,
    ensures
        file matches Ok(f) && {
            let n = db@.len() as int / (page_size as int);
            let pages = pages_view(f.pages@);
            &&& f.header.page_size == page_size
            &&& f.header.commit == n
            &&& f.header.min_txid == 1
            &&& f.header.max_txid == max_txid
            &&& f.header.timestamp == timestamp_ms
            &&& f.header.flags == 0
            &&& f.header.pre_apply_checksum == Checksum(0)
            &&& f.header.wal_offset == 0 && f.header.wal_size == 0
            &&& f.header.wal_salt1 == 0 && f.header.wal_salt2 == 0 && f.header.node_id == 0
            &&& pages.len() == (if lock <= n {
                n - 1
            } else {
                n
            })
            &&& forall|i: int|
                0 <= i < pages.len() ==> (#[trigger] pages[i]).0 == (if i + 1 < lock {
                    i + 1
                } else {
                    i + 2
                }) && pages[i].1 == image_page(db@, page_size, pages[i].0)
            &&& f.trailer == r->Ok_0.1
            &&& f.trailer.post_apply_checksum == Checksum(rolling_checksum(pages))
        },
{
    let commit = snapshot_commit(page_size, db@.len());
    let ps = snapshot_recs(db@, page_size, commit as nat);
    lemma_supported(page_size as int);
    let f = file->Ok_0;
    assert(f@ == file_of(bytes@)->Ok_0);
    assert(pages_view(f.pages@) == page_views(ps));
    assert(db@.len() == commit * page_size) by {
        vstd::arithmetic::div_mod::lemma_fundamental_div_mod(
            db@.len() as int,
            page_size as int,
        );
        assert(page_size * (db@.len() as int / page_size as int) == (db@.len() as int
            / page_size as int) * page_size) by (nonlinear_arith);
    }
    lemma_recs(db@, page_size, commit as nat, lock);
    lemma_rolled(db@, page_size, commit as nat);
    let pages = page_views(ps);
    assert forall|i: int| 0 <= i < pages.len() implies (#[trigger] pages[i]).0 == (if i + 1 < lock {
        i + 1
    } else {
        i + 2
    }) && pages[i].1 == image_page(db@, page_size, pages[i].0) by {
        assert(pages[i] == (ps[i].pgno, ps[i].data));
        let p = ps[i].pgno;
        assert((p - 1) * page_size >= 0 && (p - 1) * page_size + page_size <= commit * page_size)
            by (nonlinear_arith)
            requires
                1 <= p <= commit,
        ;
        assert(db_page(db@, page_size, p as int) =~= image_page(db@, page_size, p));
    }
}

proof fn lemma_recs(db: Seq<u8>, page_size: u32, n: nat, lock: u32)
    requires
        n <= u32::MAX,
        lock == lock_page(page_size),
        lock >= 1,
    ensures
        snapshot_recs(db, page_size, n).len() == (if lock <= n {
            n - 1
        } else {
            n as int
        }),
        forall|i: int|
            0 <= i < snapshot_recs(db, page_size, n).len() ==> {
                let p = #[trigger] snapshot_recs(db, page_size, n)[i];
                &&& p.pgno == (if i + 1 < lock {
                    i + 1
                } else {
                    i + 2
                })
                &&& 1 <= p.pgno <= n
                &&& p.data == db_page(db, page_size, p.pgno as int)
            },
    decreases n,
{
    if n > 0 {
        lemma_recs(db, page_size, (n - 1) as nat, lock);
        let before = snapshot_recs(db, page_size, (n - 1) as nat);
        let all = snapshot_recs(db, page_size, n);
        assert forall|i: int| 0 <= i < all.len() implies ({
            let p = #[trigger] all[i];
            &&& p.pgno == (if i + 1 < lock {
                i + 1
            } else {
                i + 2
            })
            &&& 1 <= p.pgno <= n
            &&& p.data == db_page(db, page_size, p.pgno as int)
        }) by {
            if i < before.len() {
                assert(all[i] == before[i]);
            }
        }
    }
}

proof fn lemma_rolled(db: Seq<u8>, page_size: u32, n: nat)
    ensures
        snapshot_post(db, page_size, n) == rolling_checksum(
            page_views(snapshot_recs(db, page_size, n)),
        ),
    decreases n,
{
    let ps = snapshot_recs(db, page_size, n);
    if n == 0 {
        assert(page_views(ps) =~= Seq::empty());
    } else {
        lemma_rolled(db, page_size, (n - 1) as nat);
        let before = snapshot_recs(db, page_size, (n - 1) as nat);
        if n != lock_page(page_size) {
            assert(page_views(ps).drop_last() =~= page_views(before));
            assert(page_views(ps).last() == (ps.last().pgno, ps.last().data));
        }
    }
}

/// Page `i` stands in the file `b` where its index entry says, right after the page before
/// it, as its number, no flags, and its frame.
pub open spec fn page_stands(
    b: Seq<u8>,
    es: Seq<PageIndexElem>,
    ps: Seq<PageRec>,
    i: int,
) -> bool {
    let e = es[i];
    &&& e.pgno == ps[i].pgno
    &&& e.offset == (if i == 0 {
        100
    } else {
        es[i - 1].offset + es[i - 1].size
    })
    &&& e.size == 6 + ps[i].frame.len()
    &&& e.offset + e.size <= b.len()
    &&& word32(b, e.offset as int) == ps[i].pgno
    &&& word16(b, e.offset + 4) == 0
    &&& b.subrange(e.offset + 6, e.offset + e.size) == ps[i].frame
}

proof fn lemma_page_stands(b: Seq<u8>, ps: Seq<PageRec>, i: int)
    requires
        0 <= i < ps.len(),
        100 + body_bytes(ps).len() <= b.len() <= u64::MAX,
        b.subrange(100, (100 + body_bytes(ps).len()) as int) == body_bytes(ps),
    ensures
        page_stands(b, entries(ps), ps, i),
        entries(ps)[i].offset == 100 + body_bytes(ps.take(i)).len(),
        entries(ps)[i].size == rec_bytes(ps[i]).len(),
{
    let body = body_bytes(ps);
    let es = entries(ps);
    lemma_page_in_body(ps, i);
    let e = es[i];
    let at = body_bytes(ps.take(i)).len() as int;
    let rec = rec_bytes(ps[i]);
    lemma_page_header_round_trip(PageHeader { pgno: ps[i].pgno, flags: 0 }, ps[i].frame);
    assert forall|k: int| 0 <= k < rec.len() implies b[100 + at + k] == #[trigger] rec[k] by {
        assert(b.subrange(100, (100 + body.len()) as int)[at + k] == b[100 + at + k]);
        assert(body.subrange(at, at + rec.len())[k] == body[at + k]);
    }
    lemma_word32(rec, 0);
    lemma_word16(rec, 4);
    assert(word32(b, 100 + at) == word32(rec, 0)) by {
        assert(b[100 + at + 0] == rec[0] && b[100 + at + 1] == rec[1] && b[100 + at + 2] == rec[2]
            && b[100 + at + 3] == rec[3]);
    }
    assert(word16(b, 100 + at + 4) == word16(rec, 4)) by {
        assert(b[100 + at + 4] == rec[4] && b[100 + at + 5] == rec[5]);
    }
    assert forall|k: int| 0 <= k < ps[i].frame.len() implies b.subrange(
        e.offset + 6,
        e.offset + e.size,
    )[k] == #[trigger] ps[i].frame[k] by {
        assert(rec[6 + k] == ps[i].frame[k]);
        assert(b[100 + at + (6 + k)] == rec[6 + k]);
    }
    assert(b.subrange(e.offset + 6, e.offset + e.size) =~= ps[i].frame);
    if i > 0 {
        lemma_page_in_body(ps, i - 1);
    } else {
        assert(ps.take(0) =~= Seq::empty());
    }
}

/// Where everything stands in a written file: the header, the pages one after another, six
/// zeros, the index, its length, the checksum of the database, and that of the file.
#[verifier::rlimit(30)]
pub proof fn lemma_file_is_laid_out(h: Header, ps: Seq<PageRec>, post: Checksum)
    requires
        file_bytes(h, ps, post).len() <= u64::MAX,
    ensures
        ({
            let b = file_bytes(h, ps, post);
            let es = entries(ps);
            let n = index_bytes(es).len();
            let end = b.len() - 24 - n;
            &&& b.take(100) == header_bytes(h)
            &&& es.len() == ps.len()
            &&& forall|i: int| 0 <= i < ps.len() ==> #[trigger] page_stands(b, es, ps, i)
            &&& end - 6 == (if ps.len() == 0 {
                100
            } else {
                es.last().offset + es.last().size
            })
            &&& forall|i: int| end - 6 <= i < end ==> #[trigger] b[i] == 0
            &&& b.subrange(end, end + n) == index_bytes(es)
            &&& word64(b, b.len() - 24) == n
            &&& word64(b, b.len() - 16) == post.0
            &&& word64(b, b.len() - 8) == file_trailer(h, ps, post).file_checksum.0
        }),
{
    let b = file_bytes(h, ps, post);
    let es = entries(ps);
    let n = index_bytes(es).len();
    let t = file_trailer(h, ps, post);
    lemma_header_round_trip_len(h);
    lemma_trailer_round_trip(t, Seq::empty());
    lemma_be_bytes_len(n, 8);
    let body = body_bytes(ps);
    let end = 106 + body.len();
    assert(b.len() == end + n + 8 + 16);
    assert(b.take(100) =~= header_bytes(h));
    assert(b.subrange(100, (100 + body.len()) as int) =~= body);
    assert(b.subrange(end as int, (end + n) as int) =~= index_bytes(es));
    let foot = b.subrange(b.len() - 24, b.len() - 16);
    assert(foot =~= be_bytes(n, 8));
    lemma_pow256_values();
    lemma_be_round_trip(n, 8);
    lemma_word64(b, b.len() - 24);
    let tb = b.skip(b.len() - 16);
    assert(tb =~= trailer_bytes(t) + Seq::<u8>::empty());
    lemma_word64(tb, 0);
    lemma_word64(tb, 8);
    assert(word64(tb, 0) == word64(b, b.len() - 16));
    assert(word64(tb, 8) == word64(b, b.len() - 8));
    assert forall|i: int| end - 6 <= i < end implies #[trigger] b[i] == 0 by {
        assert(b[i] == zeros(6)[i - (end - 6)]);
    }
    assert forall|i: int| 0 <= i < ps.len() implies #[trigger] page_stands(b, es, ps, i) by {
        lemma_page_stands(b, ps, i);
    }
    if ps.len() > 0 {
        let l = ps.len() - 1;
        lemma_page_stands(b, ps, l);
        lemma_page_in_body(ps, l);
        assert(ps.take(l + 1) =~= ps);
        assert(es.last() == es[l]);
    }
}

proof fn lemma_header_round_trip_len(h: Header)
    ensures
        header_bytes(h).len() == 100,
{
    crate::ltx::format::lemma_header_layout(h);
}

proof fn lemma_page_in_body(ps: Seq<PageRec>, i: int)
    requires
        0 <= i < ps.len(),
    ensures
        body_bytes(ps.take(i + 1)).len() == body_bytes(ps.take(i)).len() + rec_bytes(ps[i]).len(),
        body_bytes(ps.take(i + 1)).len() <= body_bytes(ps).len(),
        body_bytes(ps).subrange(
            body_bytes(ps.take(i)).len() as int,
            (body_bytes(ps.take(i)).len() + rec_bytes(ps[i]).len()) as int,
        ) == rec_bytes(ps[i]),
{
    crate::ltx::roundtrip::lemma_body_prefix(ps, i);
    crate::ltx::roundtrip::lemma_body_prefix(ps, i + 1);
    assert(ps.take(i + 1).drop_last() =~= ps.take(i));
    let small = body_bytes(ps.take(i));
    let mid = body_bytes(ps.take(i + 1));
    let all = body_bytes(ps);
    assert(mid == small + rec_bytes(ps[i]));
    assert(all.subrange(small.len() as int, mid.len() as int) =~= all.take(
        mid.len() as int,
    ).subrange(small.len() as int, mid.len() as int));
    assert(mid.subrange(small.len() as int, mid.len() as int) =~= rec_bytes(ps[i]));
}

/// A frame is sliced out of a file where the file reaches that far.
pub proof fn lemma_frame_is_sliced(b: &[u8], e: PageIndexElem, r: Result<&[u8], LtxError>)
    requires
        call_ensures(slice_frame, (b, e), r),
    ensures
        r is Ok <==> e.offset + e.size <= b@.len(),
        r matches Ok(f) ==> f@.len() == e.size && forall|i: int|
            0 <= i < e.size ==> #[trigger] f@[i] == b@[e.offset + i],
{
}

/// How a page frame is read: by its flags, as a block of stated size or as a frame; and
/// only where it gives a whole page.
pub proof fn lemma_page_frame_is_read(
    f: &[u8],
    page_size: usize,
    r: Result<(PageHeader, Vec<u8>), LtxError>,
)
    requires
        page_size <= 65536,
        call_ensures(decode_page_frame, (f, page_size), r),
    ensures
        f@.len() < 6 ==> r is Err,
        r matches Ok((ph, d)) ==> {
            &&& f@.len() >= 6
            &&& ph.pgno == word32(f@, 0)
            &&& ph.flags == word16(f@, 4)
            &&& d@.len() == page_size
        },
        f@.len() >= 6 && word16(f@, 4) % 2 == 0 ==> match lz4_frame_content(f@.skip(6)) {
            Some(d) => if d.len() == page_size {
                r matches Ok((_, p)) && p@ == d
            } else {
                r == Err::<(PageHeader, Vec<u8>), LtxError>(
                    LtxError::WrongPageLength {
                        expected: page_size as u32,
                        got: d.len() as usize,
                    },
                )
            },
            None => r == Err::<(PageHeader, Vec<u8>), LtxError>(LtxError::Frame),
        },
        f@.len() >= 6 && word16(f@, 4) % 2 == 1 && (f@.len() < 10 || f@.len() < 10 + word32(f@, 6))
            ==> (r matches Err(LtxError::ShortBuffer { need, got }) && got == f@.len() as usize),
        f@.len() >= 10 && word16(f@, 4) % 2 == 1 && f@.len() >= 10 + word32(f@, 6) && word32(f@, 6)
            > crate::ltx::lz4::MAX_BLOCK_LEN ==> r == Err::<(PageHeader, Vec<u8>), LtxError>(
            LtxError::BlockTooLong { len: word32(f@, 6) as u32 },
        ),
        f@.len() >= 10 && word16(f@, 4) % 2 == 1 && f@.len() >= 10 + word32(f@, 6) && word32(f@, 6)
            <= crate::ltx::lz4::MAX_BLOCK_LEN ==> match lz4_block_into(
            f@.subrange(10, 10 + word32(f@, 6)),
            zeros(page_size as nat),
        ) {
            Ok((n, d)) => if n == page_size && d.len() == page_size {
                r matches Ok((_, p)) && p@ == d
            } else {
                r == Err::<(PageHeader, Vec<u8>), LtxError>(
                    LtxError::WrongPageLength { expected: page_size as u32, got: n as usize },
                )
            },
            Err(e) => r == Err::<(PageHeader, Vec<u8>), LtxError>(LtxError::Lz4(e)),
        },
{
    if f@.len() >= 6 {
        lemma_word32(f@, 0);
        lemma_word16(f@, 4);
        let flags = word16(f@, 4) as u16;
        assert(flags & 1 != 0 <==> flags % 2 == 1) by (bit_vector);
        if f@.len() >= 10 {
            lemma_word32(f@, 6);
            if f@.len() >= 10 + word32(f@, 6) {
                assert(f@.skip(10).take(word32(f@, 6)) =~= f@.subrange(10, 10 + word32(f@, 6)));
            }
        }
    }
}

/// The pages of a file with their frames undone: each page header, the size where there is
/// one, and the data of the page.
pub open spec fn unframed(b: Seq<u8>, es: Seq<PageIndexElem>, pages: Seq<PageView>, n: nat) -> Seq<
    u8,
>
    decreases n,
{
    if n == 0 {
        Seq::empty()
    } else {
        let at = es[n - 1].offset as int;
        let head = if word16(b, at + 4) % 2 == 1 {
            b.subrange(at, at + 10)
        } else {
            b.subrange(at, at + 6)
        };
        unframed(b, es, pages, (n - 1) as nat) + (head + pages[n - 1].1)
    }
}

/// What is read of a file is its header, the page behind each entry of its index, and its
/// last sixteen bytes; and the last eight are the checksum of all that comes before them,
/// with the frames undone.
#[verifier::rlimit(30)]
pub proof fn lemma_file_is_verified(
    b: &[u8],
    r: Result<DecodedFile, LtxError>,
    header: Result<Header, LtxError>,
    index: Result<Vec<PageIndexElem>, LtxError>,
)
    requires
        call_ensures(read_file, (b,), r),
        call_ensures(Header::decode, (b,), header),
        call_ensures(page_index, (b,), index),
    ensures
        header matches Err(e) ==> r == Err::<DecodedFile, LtxError>(e),
        header is Ok ==> (index matches Err(e) ==> r == Err::<DecodedFile, LtxError>(e)),
        r matches Ok(f) ==> {
            let es = index->Ok_0@;
            let pages = pages_view(f.pages@);
            let start = b@.len() - 24 - word64(b@, b@.len() - 24);
            &&& header == Ok::<Header, LtxError>(f.header)
            &&& index is Ok
            &&& pages.len() == es.len()
            &&& forall|i: int|
                0 <= i < es.len() ==> {
                    let e = #[trigger] es[i];
                    let frame = b@.subrange(e.offset as int, e.offset + e.size);
                    &&& e.offset + e.size <= b@.len()
                    &&& (page_frame_of(frame, f.header.page_size as nat) matches Ok((ph, d)) && (
                    ph.pgno == pages[i].0 && d == pages[i].1))
                }
            &&& f.trailer.post_apply_checksum.0 == word64(b@, b@.len() - 16)
            &&& f.trailer.file_checksum.0 == word64(b@, b@.len() - 8)
            &&& f.trailer.file_checksum.0 == flagged_crc64(
                b@.take(100) + unframed(b@, es, pages, es.len()) + zeros(6) + b@.subrange(
                    start,
                    b@.len() - 8,
                ),
            )
        },
{
    let s = b@;
    if let Ok(f) = r {
        reveal(page_index_of);
        let es = index->Ok_0@;
        let h = f.header;
        lemma_word64(s, s.len() - 24);
        lemma_word64(s, s.len() - 16);
        lemma_word64(s, s.len() - 8);
        let t = s.skip(s.len() - 16);
        assert(t.subrange(0, 8) =~= s.subrange(s.len() - 16, s.len() - 8));
        assert(t.subrange(8, 16) =~= s.subrange(s.len() - 8, s.len() as int));
        let (pages, hashed) = indexed_pages_of(s, es, h.page_size as nat, es.len())->Ok_0;
        lemma_pages_behind(s, es, h.page_size as nat, es.len());
        assert(f@.pages == pages);
        assert(hashed == unframed(s, es, pages, es.len()));
    }
}

#[verifier::rlimit(30)]
proof fn lemma_pages_behind(b: Seq<u8>, es: Seq<PageIndexElem>, page_size: nat, n: nat)
    requires
        n <= es.len(),
        indexed_pages_of(b, es, page_size, n) is Ok,
    ensures
        ({
            let (pages, hashed) = indexed_pages_of(b, es, page_size, n)->Ok_0;
            &&& pages.len() == n
            &&& hashed == unframed(b, es, pages, n)
            &&& forall|i: int|
                0 <= i < n ==> {
                    let e = #[trigger] es[i];
                    let frame = b.subrange(e.offset as int, e.offset + e.size);
                    &&& e.offset + e.size <= b.len()
                    &&& (page_frame_of(frame, page_size) matches Ok((ph, d)) && (ph.pgno
                        == pages[i].0 && d == pages[i].1))
                }
        }),
    decreases n,
{
    if n > 0 {
        lemma_pages_behind(b, es, page_size, (n - 1) as nat);
        reveal(indexed_page_of);
        let (before, hashed) = indexed_pages_of(b, es, page_size, (n - 1) as nat)->Ok_0;
        let (pages, all) = indexed_pages_of(b, es, page_size, n)->Ok_0;
        let e = es[n - 1];
        let at = e.offset as int;
        let frame = b.subrange(at, at + e.size);
        let d = pages[n - 1].1;
        lemma_word16(frame, 4);
        let flags = word16(frame, 4) as u16;
        assert(flags & 1 != 0 <==> flags % 2 == 1) by (bit_vector);
        assert(word16(frame, 4) == word16(b, at + 4));
        assert(frame.len() == e.size);
        assert(frame.take(6) =~= b.subrange(at, at + 6));
        if word16(b, at + 4) % 2 == 1 {
            assert(frame.take(10) =~= b.subrange(at, at + 10));
        }
        lemma_unframed_prefix(b, es, before, pages, (n - 1) as nat);
    }
}

proof fn lemma_unframed_prefix(
    b: Seq<u8>,
    es: Seq<PageIndexElem>,
    short: Seq<PageView>,
    long: Seq<PageView>,
    n: nat,
)
    requires
        n <= short.len() <= long.len(),
        forall|i: int| 0 <= i < n ==> #[trigger] short[i] == long[i],
    ensures
        unframed(b, es, short, n) == unframed(b, es, long, n),
    decreases n,
{
    if n > 0 {
        lemma_unframed_prefix(b, es, short, long, (n - 1) as nat);
        assert(short[n - 1] == long[n - 1]);
    }
}

/// File `i` starts no later than just after the end of the one before it, ends later, and
/// has the page size of the first.
pub open spec fn continues(hs: Seq<Header>, i: int) -> bool {
    &&& hs[i].page_size == hs[0].page_size
    &&& hs[i].min_txid <= hs[i - 1].max_txid + 1
    &&& hs[i].max_txid > hs[i - 1].max_txid
}

/// The header of a compaction: it spans the TXIDs from the first file to the last, and has
/// the size and the age of the last. It is given exactly where every file continues the
/// one before it, and all have one page size.
pub proof fn lemma_compaction_spans_its_inputs(
    inputs: &[&[u8]],
    hs: Seq<Header>,
    r: Result<Header, LtxError>,
)
    requires
        inputs@.len() > 0,
        hs.len() == inputs@.len(),
        forall|i: int|
            0 <= i < hs.len() ==> call_ensures(
                Header::decode,
                (inputs@[i],),
                Ok::<Header, LtxError>(#[trigger] hs[i]),
            ),
        call_ensures(compact_header, (inputs,), r),
    ensures
        r is Ok <==> forall|i: int|
            1 <= i < hs.len() ==> #[trigger] continues(hs, i),
        r matches Ok(h) ==> {
            &&& h.min_txid == hs[0].min_txid
            &&& h.max_txid == hs[hs.len() - 1].max_txid
            &&& h.commit == hs[hs.len() - 1].commit
            &&& h.timestamp == hs[hs.len() - 1].timestamp
            &&& h.page_size == hs[0].page_size
            &&& h.flags == 2
            &&& h.pre_apply_checksum == Checksum(0)
            &&& h.wal_offset == 0 && h.wal_size == 0
            &&& h.wal_salt1 == 0 && h.wal_salt2 == 0 && h.node_id == 0
        },
{
    let bufs = buffers(inputs@);
    assert forall|i: int| 0 <= i < hs.len() implies header_of(#[trigger] bufs[i]) == Ok::<
        Header,
        LtxError,
    >(hs[i]) by {
        assert(bufs[i] == inputs@[i]@);
        let h = hs[i];
    }
    lemma_headers_are(bufs, hs, hs.len());
    assert(hs.take(hs.len() as int) =~= hs);
    lemma_chained(hs, hs.len());
}

/// A compaction is refused for the first file that does not continue the one before it: for
/// its page size, or for the gap, of whose ends the low 32 bits are told.
pub proof fn lemma_compaction_is_refused(
    inputs: &[&[u8]],
    hs: Seq<Header>,
    i: int,
    r: Result<Header, LtxError>,
)
    requires
        hs.len() == inputs@.len(),
        forall|k: int|
            0 <= k < hs.len() ==> call_ensures(
                Header::decode,
                (inputs@[k],),
                Ok::<Header, LtxError>(#[trigger] hs[k]),
            ),
        1 <= i < hs.len(),
        !continues(hs, i),
        forall|k: int| 1 <= k < i ==> #[trigger] continues(hs, k),
        call_ensures(compact_header, (inputs,), r),
    ensures
        hs[i].page_size != hs[0].page_size ==> r == Err::<Header, LtxError>(
            LtxError::InvalidPageSize(hs[i].page_size),
        ),
        hs[i].page_size == hs[0].page_size ==> (r matches Err(
            LtxError::UnexpectedPage { expected, got },
        ) && (expected == hs[i - 1].max_txid % 0x1_0000_0000 && got == hs[i].min_txid
            % 0x1_0000_0000)),
{
    let bufs = buffers(inputs@);
    assert forall|k: int| 0 <= k < hs.len() implies header_of(#[trigger] bufs[k]) == Ok::<
        Header,
        LtxError,
    >(hs[k]) by {
        assert(bufs[k] == inputs@[k]@);
        let h = hs[k];
    }
    lemma_headers_are(bufs, hs, hs.len());
    assert(hs.take(hs.len() as int) =~= hs);
    lemma_chained(hs, i as nat);
    lemma_chain_stays_broken(hs, (i + 1) as nat, hs.len());
}

proof fn lemma_chain_stays_broken(hs: Seq<Header>, i: nat, n: nat)
    requires
        i <= n,
        chain_of(hs, i) is Err,
    ensures
        chain_of(hs, n) == chain_of(hs, i),
    decreases n - i,
{
    if i < n {
        lemma_chain_stays_broken(hs, i, (n - 1) as nat);
    }
}

/// Without a file there is nothing to compact, and a file whose header cannot be read
/// refuses the compaction, the first such file with its own fault.
pub proof fn lemma_compaction_needs_headers(
    inputs: &[&[u8]],
    i: int,
    e: LtxError,
    r: Result<Header, LtxError>,
)
    requires
        call_ensures(compact_header, (inputs,), r),
        inputs@.len() > 0 ==> {
            &&& 0 <= i < inputs@.len()
            &&& call_ensures(Header::decode, (inputs@[i],), Err::<Header, LtxError>(e))
            &&& forall|k: int|
                0 <= k < i ==> #[trigger] header_of(inputs@[k]@) is Ok
        },
    ensures
        inputs@.len() == 0 ==> r == Err::<Header, LtxError>(
            LtxError::ShortBuffer { need: 1, got: 0 },
        ),
        inputs@.len() > 0 ==> r == Err::<Header, LtxError>(e),
{
    if inputs@.len() > 0 {
        let bufs = buffers(inputs@);
        assert(bufs[i] == inputs@[i]@);
        lemma_first_bad_header(bufs, i, (i + 1) as nat);
        lemma_headers_stay_bad(bufs, (i + 1) as nat, bufs.len());
    }
}

proof fn lemma_first_bad_header(bufs: Seq<Seq<u8>>, i: int, n: nat)
    requires
        0 <= i < bufs.len(),
        n <= i + 1,
        header_of(bufs[i]) is Err,
        forall|k: int| 0 <= k < i ==> header_of(#[trigger] bufs[k]) is Ok,
    ensures
        n <= i ==> headers_of(bufs, n) is Ok,
        n == i + 1 ==> headers_of(bufs, n) == Err::<Seq<Header>, LtxError>(
            header_of(bufs[i])->Err_0,
        ),
    decreases n,
{
    if n > 0 {
        lemma_first_bad_header(bufs, i, (n - 1) as nat);
        if n <= i {
            assert(header_of(bufs[n - 1]) is Ok);
        }
    }
}

proof fn lemma_headers_stay_bad(bufs: Seq<Seq<u8>>, i: nat, n: nat)
    requires
        i <= n,
        headers_of(bufs, i) is Err,
    ensures
        headers_of(bufs, n) == headers_of(bufs, i),
    decreases n - i,
{
    if i < n {
        lemma_headers_stay_bad(bufs, i, (n - 1) as nat);
    }
}

proof fn lemma_headers_are(bufs: Seq<Seq<u8>>, hs: Seq<Header>, n: nat)
    requires
        n <= hs.len(),
        hs.len() == bufs.len(),
        forall|i: int|
            0 <= i < hs.len() ==> header_of(#[trigger] bufs[i]) == Ok::<Header, LtxError>(hs[i]),
    ensures
        headers_of(bufs, n) == Ok::<Seq<Header>, LtxError>(hs.take(n as int)),
    decreases n,
{
    if n > 0 {
        lemma_headers_are(bufs, hs, (n - 1) as nat);
        assert(header_of(bufs[n - 1]) == Ok::<Header, LtxError>(hs[n - 1]));
        assert(hs.take(n - 1).push(hs[n - 1]) =~= hs.take(n as int));
    } else {
        assert(hs.take(0) =~= Seq::empty());
    }
}

proof fn lemma_chained(hs: Seq<Header>, n: nat)
    requires
        n <= hs.len(),
    ensures
        chain_of(hs, n) is Ok <==> forall|i: int|
            1 <= i < n ==> #[trigger] continues(hs, i),
    decreases n,
{
    if n > 1 {
        lemma_chained(hs, (n - 1) as nat);
        if chain_of(hs, n) is Ok {
            assert forall|i: int| 1 <= i < n implies #[trigger] continues(hs, i) by {
                if i == n - 1 {
                    assert(hs[n - 2] == hs[i - 1]);
                }
            }
        }
        if forall|i: int| 1 <= i < n ==> #[trigger] continues(hs, i) {
            assert(continues(hs, n - 1));
        }
    }
}

/// A page block stands at `at`: its page number, odd flags, the length of its block, and the
/// block, which gives `data`.
pub open spec fn block_at(b: Seq<u8>, at: int, pgno: int, page_size: nat, data: Seq<u8>) -> bool {
    &&& at + 10 + word32(b, at + 6) <= b.len()
    &&& word32(b, at) == pgno
    &&& word16(b, at + 4) % 2 == 1
    &&& exists|buf: Seq<u8>|
        buf.len() == page_size && (#[trigger] lz4_block_into(
            b.subrange(at + 10, at + 10 + word32(b, at + 6)),
            buf,
        ) matches Ok((_, d)) && d == data)
}

/// Where the page blocks of the pages after `1..=n` stand.
pub open spec fn block_start(b: Seq<u8>, h: Header, n: nat) -> int {
    rebuild(b, h, n)->Ok_0.at.pos
}

/// The pages `1..=n` of a database image but the lock page, each with its number.
pub open spec fn image_pages(db: Seq<u8>, page_size: u32, lock: u32, n: nat) -> Seq<PageView>
    decreases n,
{
    if n == 0 {
        Seq::empty()
    } else {
        let before = image_pages(db, page_size, lock, (n - 1) as nat);
        if n == lock {
            before
        } else {
            before.push((n as u32, image_page(db, page_size, n as u32)))
        }
    }
}

proof fn lemma_rebuilt(b: Seq<u8>, h: Header, n: nat, m: nat)
    requires
        b.len() >= 100,
        valid_page_size(h.page_size),
        n <= m <= h.commit,
        whole_blocks(b, h, m),
    ensures
        rebuild(b, h, n) is Ok,
        ({
            let s = rebuild(b, h, n)->Ok_0;
            &&& s.db.len() == h.commit * h.page_size
            &&& s.buf.len() == h.page_size
            &&& 100 <= s.at.pos <= b.len()
        }),
    decreases m,
{
    if n < m {
        lemma_rebuilt(b, h, n, (m - 1) as nat);
    } else if n > 0 {
        lemma_rebuilt(b, h, (n - 1) as nat, (n - 1) as nat);
        let s = rebuild(b, h, (n - 1) as nat)->Ok_0;
        assert((n - 1) * h.page_size >= 0 && (n - 1) * h.page_size + h.page_size <= h.commit
            * h.page_size) by (nonlinear_arith)
            requires
                1 <= n <= h.commit,
        ;
    } else {
        assert(h.page_size * h.commit == h.commit * h.page_size) by (nonlinear_arith);
        assert(h.commit * h.page_size >= 0) by (nonlinear_arith);
    }
}

#[verifier::rlimit(30)]
proof fn lemma_page_rebuilt(b: Seq<u8>, h: Header, n: nat, m: nat)
    requires
        b.len() >= 100,
        valid_page_size(h.page_size),
        1 <= n <= m <= h.commit,
        whole_blocks(b, h, m),
    ensures
        ({
            let page = image_page(rebuild(b, h, m)->Ok_0.db, h.page_size, n as u32);
            let at = block_start(b, h, (n - 1) as nat);
            if n == lock_page(h.page_size) {
                &&& page == zeros(h.page_size as nat)
                &&& block_start(b, h, n) == at
            } else {
                &&& block_at(b, at, n as int, h.page_size as nat, page)
                &&& block_start(b, h, n) == at + 10 + word32(b, at + 6)
            }
        }),
    decreases m,
{
    lemma_rebuilt(b, h, m, m);
    lemma_rebuilt(b, h, (m - 1) as nat, m);
    let s = rebuild(b, h, (m - 1) as nat)->Ok_0;
    let ps = h.page_size as int;
    let start = (m - 1) * ps;
    assert((n - 1) * ps >= 0 && (n - 1) * ps + ps <= h.commit * ps && (n < m ==> (n - 1) * ps + ps
        <= start) && start + ps <= h.commit * ps) by (nonlinear_arith)
        requires
            1 <= n <= m <= h.commit,
            start == (m - 1) * ps,
            ps > 0,
    ;
    let db = rebuild(b, h, m)->Ok_0.db;
    if n < m {
        lemma_page_rebuilt(b, h, n, (m - 1) as nat);
        assert(image_page(db, h.page_size, n as u32) =~= image_page(s.db, h.page_size, n as u32));
    } else if n == lock_page(h.page_size) {
        lemma_untouched(b, h, (n - 1) as nat, n as int);
        assert(image_page(db, h.page_size, n as u32) =~= zeros(h.page_size as nat));
    } else {
        let at = s.at.pos;
        let rest = b.skip(at);
        lemma_word32(rest, 0);
        lemma_word16(rest, 4);
        let flags = word16(rest, 4) as u16;
        assert(flags & 1 != 0 <==> flags % 2 == 1) by (bit_vector);
        assert(rest.len() >= 10);
        lemma_word32(rest, 6);
        assert(word32(rest, 0) == word32(b, at));
        assert(word16(rest, 4) == word16(b, at + 4));
        assert(word32(rest, 6) == word32(b, at + 6));
        let len = word32(b, at + 6);
        assert(rest.subrange(10, 10 + len) =~= b.subrange(at + 10, at + 10 + len));
        let data = rebuild(b, h, m)->Ok_0.buf;
        assert(image_page(db, h.page_size, n as u32) =~= data);
    }
}

proof fn lemma_untouched(b: Seq<u8>, h: Header, n: nat, p: int)
    requires
        b.len() >= 100,
        valid_page_size(h.page_size),
        n < p <= h.commit,
        whole_blocks(b, h, n),
    ensures
        forall|i: int|
            (p - 1) * h.page_size <= i < (p - 1) * h.page_size + h.page_size ==> #[trigger] rebuild(
                b,
                h,
                n,
            )->Ok_0.db[i] == 0,
    decreases n,
{
    lemma_rebuilt(b, h, n, n);
    let ps = h.page_size as int;
    assert((p - 1) * ps >= n * ps && (p - 1) * ps + ps <= h.commit * ps && n * ps >= 0)
        by (nonlinear_arith)
        requires
            0 <= n < p <= h.commit,
            ps > 0,
    ;
    assert(h.page_size * h.commit == h.commit * ps) by (nonlinear_arith)
        requires
            ps == h.page_size,
    ;
    if n > 0 {
        lemma_rebuilt(b, h, (n - 1) as nat, n);
        lemma_untouched(b, h, (n - 1) as nat, p);
        assert((n - 1) * ps + ps == n * ps && (n - 1) * ps >= 0) by (nonlinear_arith)
            requires
                n >= 1,
                ps > 0,
        ;
        let s = rebuild(b, h, (n - 1) as nat)->Ok_0;
        let t = rebuild(b, h, n)->Ok_0;
        assert forall|i: int| (p - 1) * ps <= i < (p - 1) * ps + ps implies #[trigger] t.db[i]
            == 0 by {
            assert(s.db[i] == 0);
        }
    }
}

/// Page `p` of the image is what its block gives, and the next block follows; the lock page
/// has no block, and is zero.
pub open spec fn page_is_rebuilt(b: Seq<u8>, h: Header, db: Seq<u8>, lock: u32, p: u32) -> bool {
    let at = block_start(b, h, (p - 1) as nat);
    let next = block_start(b, h, p as nat);
    let page = image_page(db, h.page_size, p);
    if p == lock {
        next == at && page == zeros(h.page_size as nat)
    } else {
        &&& block_at(b, at, p as int, h.page_size as nat, page)
        &&& next == at + 10 + word32(b, at + 6)
    }
}

/// A snapshot is read block by block, the blocks one after another from the end of the
/// header: page by page in order, without the lock page, which is zero. Only a file that
/// starts at TXID 1 is one.
#[verifier::rlimit(30)]
pub proof fn lemma_snapshot_is_rebuilt(
    b: &[u8],
    r: Result<Snapshot, LtxError>,
    header: Result<Header, LtxError>,
    lock: u32,
)
    requires
        call_ensures(read_snapshot, (b,), r),
        call_ensures(Header::decode, (b,), header),
        header matches Ok(h) ==> call_ensures(lock_pgno, (h.page_size,), lock),
    ensures
        r matches Ok(s) ==> {
            let h = s.header;
            &&& header == Ok::<Header, LtxError>(h)
            &&& h.min_txid == 1
            &&& s.db@.len() == h.commit * h.page_size
            &&& block_start(b@, h, 0) == 100
            &&& forall|p: u32|
                1 <= p <= h.commit ==> #[trigger] page_is_rebuilt(b@, h, s.db@, lock, p)
        },
        header matches Ok(h) ==> (h.min_txid != 1 ==> r matches Err(LtxError::NotASnapshot)),
{
    let s0 = b@;
    if s0.len() >= 100 {
        lemma_header_of_front(s0);
    }
    if let Ok(s) = r {
        let h = s.header;
        let m = h.commit as nat;
        assert(header == Ok::<Header, LtxError>(h));
        assert(h.page_size * h.commit == h.commit * h.page_size) by (nonlinear_arith);
        assert forall|p: u32| 1 <= p <= h.commit implies #[trigger] page_is_rebuilt(
            s0,
            h,
            s.db@,
            lock,
            p,
        ) by {
            lemma_page_rebuilt(s0, h, p as nat, m);
        }
    }
}

/// After the blocks of a snapshot stand six zeros, the index and the trailer. The last
/// eight bytes are the checksum of all that comes before them, with the blocks undone;
/// where checksums are on, the eight before are the rolling checksum of the pages.
#[verifier::rlimit(30)]
pub proof fn lemma_snapshot_is_verified(b: &[u8], r: Result<Snapshot, LtxError>)
    requires
        call_ensures(read_snapshot, (b,), r),
    ensures
        r matches Ok(s) ==> {
            let h = s.header;
            let end = block_start(b@, h, h.commit as nat);
            &&& end + 6 + 16 <= b@.len()
            &&& word32(b@, end) == 0 && word16(b@, end + 4) == 0
            &&& s.trailer.post_apply_checksum.0 == word64(b@, b@.len() - 16)
            &&& s.trailer.file_checksum.0 == word64(b@, b@.len() - 8)
            &&& s.trailer.file_checksum.0 == flagged_crc64(
                b@.take(100) + unblocked(b@, h, s.db@, h.commit as nat) + b@.subrange(
                    end,
                    b@.len() - 8,
                ),
            )
            &&& (h.flags / 2) % 2 == 0 ==> s.trailer.post_apply_checksum.0 == fold_checksum(
                0,
                rolling_checksum(
                    image_pages(s.db@, h.page_size, lock_page(h.page_size), h.commit as nat),
                ),
            )
        },
{
    let s0 = b@;
    if let Ok(s) = r {
        let h = s.header;
        let m = h.commit as nat;
        let done = rebuild(s0, h, m)->Ok_0;
        lemma_rebuilt(s0, h, m, m);
        lemma_hashed_is_kept(s0, h, m, m);
        lemma_snapshot_ends(s0, h, done, s.trailer);
        let f = h.flags;
        assert(f & 2 != 0 <==> (f / 2) % 2 == 1) by (bit_vector);
        if (h.flags / 2) % 2 == 0 {
            lemma_rolling_is_kept(s0, h, m, m);
        }
    }
}

proof fn lemma_snapshot_ends(b: Seq<u8>, h: Header, done: Rebuild, t: Trailer)
    requires
        100 <= done.at.pos <= b.len(),
        page_step(b, h, done.at, done.buf) matches PageStep::End(at) && (finish_of(
            b,
            h,
            at,
        ) matches Ok((_, x)) && x == t),
    ensures
        ({
            let end = done.at.pos;
            &&& end + 6 + 16 <= b.len()
            &&& word32(b, end) == 0 && word16(b, end + 4) == 0
            &&& t.post_apply_checksum.0 == word64(b, b.len() - 16)
            &&& t.file_checksum.0 == word64(b, b.len() - 8)
            &&& t.file_checksum.0 == flagged_crc64(done.at.hashed + b.subrange(end, b.len() - 8))
            &&& rolls(h) ==> t.post_apply_checksum.0 == done.at.rolling
        }),
{
    let end = done.at.pos;
    let rest = b.skip(end);
    lemma_word32(rest, 0);
    lemma_word16(rest, 4);
    assert(word32(rest, 0) == word32(b, end));
    assert(word16(rest, 4) == word16(b, end + 4));
    let after = b.skip(end + 6);
    let tail = after.skip(after.len() - 16);
    lemma_word64(b, b.len() - 16);
    lemma_word64(b, b.len() - 8);
    assert(tail.subrange(0, 8) =~= b.subrange(b.len() - 16, b.len() - 8));
    assert(tail.subrange(8, 16) =~= b.subrange(b.len() - 8, b.len() as int));
    assert(done.at.hashed + rest.take(6) + after.take(after.len() - 8) =~= done.at.hashed
        + b.subrange(end, b.len() - 8));
}

/// The first `n` blocks of a snapshot with the blocks undone: each page header, the length
/// of the block, and the page of the image.
pub open spec fn unblocked(b: Seq<u8>, h: Header, db: Seq<u8>, n: nat) -> Seq<u8>
    decreases n,
{
    if n == 0 {
        Seq::empty()
    } else {
        let before = unblocked(b, h, db, (n - 1) as nat);
        let at = block_start(b, h, (n - 1) as nat);
        if n == lock_page(h.page_size) {
            before
        } else {
            before + (b.subrange(at, at + 10) + image_page(db, h.page_size, n as u32))
        }
    }
}

proof fn lemma_hashed_is_kept(b: Seq<u8>, h: Header, n: nat, m: nat)
    requires
        b.len() >= 100,
        valid_page_size(h.page_size),
        n <= m <= h.commit,
        whole_blocks(b, h, m),
    ensures
        rebuild(b, h, n) is Ok,
        rebuild(b, h, n)->Ok_0.at.hashed == b.take(100) + unblocked(
            b,
            h,
            rebuild(b, h, m)->Ok_0.db,
            n,
        ),
    decreases n,
{
    lemma_rebuilt(b, h, n, m);
    let db = rebuild(b, h, m)->Ok_0.db;
    if n == 0 {
        assert(b.skip(0).take(100) =~= b.take(100));
        assert(Seq::<u8>::empty() + b.take(100) =~= b.take(100));
        assert(b.take(100) + Seq::<u8>::empty() =~= b.take(100));
    } else {
        lemma_hashed_is_kept(b, h, (n - 1) as nat, m);
        lemma_rebuilt(b, h, (n - 1) as nat, m);
        if n != lock_page(h.page_size) {
            lemma_page_same(b, h, n, m);
            let at = block_start(b, h, (n - 1) as nat);
            let before = unblocked(b, h, db, (n - 1) as nat);
            assert(b.skip(at).take(10) =~= b.subrange(at, at + 10));
            let page = image_page(db, h.page_size, n as u32);
            assert(b.take(100) + before + b.subrange(at, at + 10) + page =~= b.take(100) + (before
                + (b.subrange(at, at + 10) + page)));
        }
    }
}

proof fn lemma_header_of_front(b: Seq<u8>)
    requires
        b.len() >= 100,
    ensures
        header_of(b.take(100)) == header_of(b),
{
    let f = b.take(100);
    assert(f.subrange(0, 4) =~= b.subrange(0, 4));
    assert(f.subrange(4, 8) =~= b.subrange(4, 8));
    assert(f.subrange(8, 12) =~= b.subrange(8, 12));
    assert(f.subrange(12, 16) =~= b.subrange(12, 16));
    assert(f.subrange(16, 24) =~= b.subrange(16, 24));
    assert(f.subrange(24, 32) =~= b.subrange(24, 32));
    assert(f.subrange(32, 40) =~= b.subrange(32, 40));
    assert(f.subrange(40, 48) =~= b.subrange(40, 48));
    assert(f.subrange(48, 56) =~= b.subrange(48, 56));
    assert(f.subrange(56, 64) =~= b.subrange(56, 64));
    assert(f.subrange(64, 68) =~= b.subrange(64, 68));
    assert(f.subrange(68, 72) =~= b.subrange(68, 72));
    assert(f.subrange(72, 80) =~= b.subrange(72, 80));
}

#[verifier::rlimit(30)]
proof fn lemma_rolling_is_kept(b: Seq<u8>, h: Header, n: nat, m: nat)
    requires
        b.len() >= 100,
        valid_page_size(h.page_size),
        h.min_txid == 1,
        h.flags & 2 == 0,
        n <= m <= h.commit,
        whole_blocks(b, h, m),
    ensures
        rebuild(b, h, n) is Ok,
        rebuild(b, h, n)->Ok_0.at.rolling == fold_checksum(
            0,
            rolling_checksum(
                image_pages(rebuild(b, h, m)->Ok_0.db, h.page_size, lock_page(h.page_size), n),
            ),
        ),
    decreases n,
{
    let f = 0x8000_0000_0000_0000u64;
    lemma_rebuilt(b, h, n, m);
    let db = rebuild(b, h, m)->Ok_0.db;
    let lock = lock_page(h.page_size);
    if n == 0 {
        assert(f | (0u64 ^ 0u64) == f) by (bit_vector);
    } else {
        lemma_rolling_is_kept(b, h, (n - 1) as nat, m);
        if n != lock {
            let before = image_pages(db, h.page_size, lock, (n - 1) as nat);
            let all = image_pages(db, h.page_size, lock, n);
            assert(all.drop_last() =~= before);
            lemma_page_same(b, h, n, m);
            let x = rolling_checksum(before);
            let c = page_checksum(n as u32, image_page(db, h.page_size, n as u32));
            assert(f | ((f | (0u64 ^ x)) ^ c) == f | (0u64 ^ (f | (x ^ c)))) by (bit_vector);
        }
    }
}

proof fn lemma_page_same(b: Seq<u8>, h: Header, n: nat, m: nat)
    requires
        b.len() >= 100,
        valid_page_size(h.page_size),
        1 <= n <= m <= h.commit,
        n != lock_page(h.page_size),
        whole_blocks(b, h, m),
    ensures
        image_page(rebuild(b, h, m)->Ok_0.db, h.page_size, n as u32) == rebuild(b, h, n)->Ok_0.buf,
    decreases m,
{
    lemma_rebuilt(b, h, m, m);
    lemma_rebuilt(b, h, n, m);
    lemma_rebuilt(b, h, (m - 1) as nat, m);
    let ps = h.page_size as int;
    assert((n - 1) * ps >= 0 && (n - 1) * ps + ps <= h.commit * ps && (n < m ==> (n - 1) * ps + ps
        <= (m - 1) * ps) && (m - 1) * ps + ps <= h.commit * ps) by (nonlinear_arith)
        requires
            1 <= n <= m <= h.commit,
            ps > 0,
    ;
    let db = rebuild(b, h, m)->Ok_0.db;
    if n < m {
        lemma_page_same(b, h, n, (m - 1) as nat);
        let s = rebuild(b, h, (m - 1) as nat)->Ok_0;
        assert(image_page(db, h.page_size, n as u32) =~= image_page(s.db, h.page_size, n as u32));
    } else {
        assert(image_page(db, h.page_size, n as u32) =~= rebuild(b, h, n)->Ok_0.buf);
    }
}

/// What a compaction writes: under the header of the compaction, each page that an input
/// lists within its size, as the last input that lists it carries it, and no other page.
pub proof fn lemma_compaction_keeps_the_latest(
    inputs: &[&[u8]],
    header: Result<Header, LtxError>,
    r: Result<Vec<u8>, LtxError>,
    bytes: &[u8],
    file: Result<DecodedFile, LtxError>,
)
    requires
        sound_inputs(buffers(inputs@)),
        call_ensures(compact_header, (inputs,), header),
        call_ensures(compact, (inputs,), r),
        r matches Ok(out) ==> bytes@ == out@,
        call_ensures(read_file, (bytes,), file),
    ensures
        header matches Err(e) ==> r == Err::<Vec<u8>, LtxError>(e),
        r is Ok ==> (file matches Ok(f) && {
            let h = f.header;
            let bufs = buffers(inputs@);
            let pages = pages_view(f.pages@);
            &&& header == Ok::<Header, LtxError>(h)
            &&& forall|m: int|
                0 <= m < pages.len() ==> (#[trigger] pages[m]).0 <= h.commit && exists|k: int|
                    #![trigger carries(bufs, h.page_size as nat, k, pages[m].0, pages[m].1)]
                    0 <= k < bufs.len() && carries(
                        bufs,
                        h.page_size as nat,
                        k,
                        pages[m].0,
                        pages[m].1,
                    ) && forall|j: int|
                        k < j < bufs.len() ==> !(#[trigger] lists(bufs, j, pages[m].0))
            &&& forall|k: int, pgno: u32|
                0 <= k < bufs.len() && pgno <= h.commit && #[trigger] lists(bufs, k, pgno)
                    ==> exists|m: int| 0 <= m < pages.len() && (#[trigger] pages[m]).0 == pgno
        }),
{
    if r is Ok {
        let bufs = buffers(inputs@);
        let (h, ps) = compact_of(bufs)->Ok_0;
        lemma_merge_keeps_latest(bufs, h);
        let f = file->Ok_0;
        let pages = pages_view(f.pages@);
        assert(f@ == file_of(bytes@)->Ok_0);
        assert(pages == page_views(ps));
        assert forall|m: int| 0 <= m < pages.len() implies (#[trigger] pages[m]).0 <= h.commit
            && exists|k: int|
            #![trigger carries(bufs, h.page_size as nat, k, pages[m].0, pages[m].1)]
            0 <= k < bufs.len() && carries(
                bufs,
                h.page_size as nat,
                k,
                pages[m].0,
                pages[m].1,
            ) && forall|j: int|
                k < j < bufs.len() ==> !(#[trigger] lists(bufs, j, pages[m].0)) by {
            assert(pages[m] == (ps[m].pgno, ps[m].data));
            let k = choose|k: int| latest_carrier(bufs, h.page_size as nat, k, ps[m]);
            assert(latest_carrier(bufs, h.page_size as nat, k, ps[m]));
            assert(carries(bufs, h.page_size as nat, k, pages[m].0, pages[m].1));
        }
        assert forall|k: int, pgno: u32|
            0 <= k < bufs.len() && pgno <= h.commit && #[trigger] lists(bufs, k, pgno)
            implies exists|m: int| 0 <= m < pages.len() && (#[trigger] pages[m]).0 == pgno by {
            let m = choose|m: int| 0 <= m < ps.len() && (#[trigger] ps[m]).pgno == pgno;
            assert(pages[m].0 == pgno);
        }
    }
}

/// Compacting is merging under the header of the compaction.
pub proof fn lemma_compaction_is_a_merge(
    inputs: &[&[u8]],
    header: Result<Header, LtxError>,
    merged: Result<Vec<u8>, LtxError>,
    r: Result<Vec<u8>, LtxError>,
    w: Result<Vec<u8>, LtxError>,
)
    requires
        call_ensures(compact_header, (inputs,), header),
        header matches Ok(h) ==> call_ensures(merge_to_writer, (inputs, h), merged),
        call_ensures(compact, (inputs,), r),
        call_ensures(compact_to_writer, (inputs,), w),
    ensures
        header matches Err(e) ==> r == Err::<Vec<u8>, LtxError>(e),
        header is Ok ==> match (r, merged) {
            (Ok(a), Ok(b)) => a@ == b@,
            (Err(e), Err(x)) => e == x,
            _ => false,
        },
        match (r, w) {
            (Ok(a), Ok(b)) => a@ == b@,
            (Err(e), Err(x)) => e == x,
            _ => false,
        },
{
}

/// The page behind an index entry is the frame that the entry points at, decoded.
pub proof fn lemma_indexed_page_is_its_frame(
    b: &[u8],
    e: PageIndexElem,
    page_size: usize,
    frame: Result<&[u8], LtxError>,
    page: Result<(PageHeader, Vec<u8>), LtxError>,
    r: Result<(PageHeader, Vec<u8>), LtxError>,
)
    requires
        page_size <= 65536,
        call_ensures(slice_frame, (b, e), frame),
        frame matches Ok(f) ==> call_ensures(decode_page_frame, (f, page_size), page),
        call_ensures(decode_indexed_page, (b, e, page_size), r),
    ensures
        frame matches Err(x) ==> r == Err::<(PageHeader, Vec<u8>), LtxError>(x),
        frame is Ok ==> match (r, page) {
            (Ok((ph, d)), Ok((qh, p))) => ph == qh && d@ == p@,
            (Err(x), Err(y)) => x == y,
            _ => false,
        },
{
    reveal(indexed_page_of);
}

/// What an encoder has written is what was taken from it and what is left in it.
pub proof fn lemma_encoder_counts_its_bytes(e: Encoder, n: u64, b: Vec<u8>)
    requires
        e.wf(),
        call_ensures(Encoder::bytes_written, (&e,), n),
        call_ensures(Encoder::into_inner, (e,), b),
    ensures
        n == e.taken().len() + b@.len(),
        e.taken() + b@ == e.output(),
{
    assert((e.taken() + b@).len() == e.taken().len() + b@.len());
}

/// A snapshot in which the pages end too soon, or in which another page stands where page
/// `p` should, is refused, and both page numbers are told.
#[verifier::rlimit(30)]
pub proof fn lemma_snapshot_misses_no_page(
    b: &[u8],
    h: Header,
    p: u32,
    r: Result<Snapshot, LtxError>,
)
    requires
        call_ensures(Header::decode, (b,), Ok::<Header, LtxError>(h)),
        h.min_txid == 1,
        h.page_size * h.commit <= usize::MAX,
        1 <= p <= h.commit,
        p != lock_page(h.page_size),
        rebuild(b@, h, (p - 1) as nat) is Ok,
        ({
            let at = block_start(b@, h, (p - 1) as nat);
            let got = word32(b@, at);
            let len = word32(b@, at + 6);
            &&& 100 <= at
            &&& at + 6 <= b@.len()
            &&& got != p
            &&& got == 0 ==> word16(b@, at + 4) == 0
            &&& got != 0 ==> {
                &&& word16(b@, at + 4) % 2 == 1
                &&& at + 10 + len <= b@.len()
                &&& len <= crate::ltx::lz4::MAX_BLOCK_LEN
                &&& lz4_block_into(
                    b@.subrange(at + 10, at + 10 + len),
                    rebuild(b@, h, (p - 1) as nat)->Ok_0.buf,
                ) is Ok
            }
        }),
        call_ensures(read_snapshot, (b,), r),
    ensures
        r matches Err(LtxError::UnexpectedPage { expected, got }) && (expected == p && got
            == word32(b@, block_start(b@, h, (p - 1) as nat))),
{
    let s = b@;
    lemma_header_of_front(s);
    let at = block_start(s, h, (p - 1) as nat);
    let rest = s.skip(at);
    lemma_word32(rest, 0);
    lemma_word16(rest, 4);
    assert(word32(rest, 0) == word32(s, at));
    assert(word16(rest, 4) == word16(s, at + 4));
    let flags = word16(rest, 4) as u16;
    assert(flags & 1 != 0 <==> flags % 2 == 1) by (bit_vector);
    if word32(s, at) != 0 {
        lemma_word32(rest, 6);
        assert(word32(rest, 6) == word32(s, at + 6));
        let len = word32(s, at + 6);
        assert(rest.subrange(10, 10 + len) =~= s.subrange(at + 10, at + 10 + len));
    }
    lemma_rebuild_error(s, h, p as nat, h.commit as nat);
}

} // verus!
