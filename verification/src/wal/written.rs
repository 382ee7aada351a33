//! How SQLite writes a WAL, and that what it writes is what is read.

use crate::wal::error::WalError;
use crate::wal::format::{
    ByteOrder, WalFrameHeader, WalHeader, frame_header_of, wal_checksum, wal_step, wal_sum, word,
    wrap_sum,
};
use crate::wal::reader::{
    Frame, FrameView, WalReader, committed, committed_end, committed_pages, final_commit, frame_at,
    frame_size, frame_sum, frames_from, kept_end, lemma_committed_bound, lemma_committed_pages,
    lemma_tail_reads_the_same, newest_offsets, sum_after,
};
use crate::wire::{be_value, lemma_digits};
use vstd::prelude::*;

verus! {

/// The 32-bit number that the four bytes of `b` at `off` spell, most significant
/// byte first.
pub open spec fn big_word(b: Seq<u8>, off: int) -> int {
    b[off] * 0x100_0000 + b[off + 1] * 0x1_0000 + b[off + 2] * 0x100 + b[off + 3]
}

/// The 32-bit number that the four bytes of `b` at `off` spell, least significant
/// byte first.
pub open spec fn little_word(b: Seq<u8>, off: int) -> int {
    b[off] + b[off + 1] * 0x100 + b[off + 2] * 0x1_0000 + b[off + 3] * 0x100_0000
}

/// The 32-bit number of `b` at `off` as a machine of this byte order reads it.
pub open spec fn native_word(bo: ByteOrder, b: Seq<u8>, off: int) -> int {
    match bo {
        ByteOrder::Little => little_word(b, off),
        ByteOrder::Big => big_word(b, off),
    }
}

/// SQLite's WAL checksum of `b` after the state `(s0, s1)`, from front to back: two
/// words at a time, each sum taking in the other.
pub open spec fn sqlite_sum(bo: ByteOrder, s0: int, s1: int, b: Seq<u8>) -> (int, int)
    decreases b.len(),
{
    if b.len() < 8 {
        (s0, s1)
    } else {
        let t0 = (s0 + native_word(bo, b, 0) + s1) % 0x1_0000_0000;
        let t1 = (s1 + native_word(bo, b, 4) + t0) % 0x1_0000_0000;
        sqlite_sum(bo, t0, t1, b.skip(8))
    }
}

proof fn lemma_word(bo: ByteOrder, w: Seq<u8>)
    requires
        w.len() == 4,
    ensures
        word(bo, w) == native_word(bo, w, 0),
{
    reveal(word);
    lemma_digits(w);
    lemma_digits(w.reverse());
}

proof fn lemma_wrap(x: u32, y: u32, z: u32)
    ensures
        wrap_sum(x, wrap_sum(y, z)) == (x + y + z) % 0x1_0000_0000,
{
    reveal(wrap_sum);
    vstd::arithmetic::div_mod::lemma_add_mod_noop_right(x as int, y + z, 0x1_0000_0000);
}

proof fn lemma_step(bo: ByteOrder, s: (u32, u32), w: Seq<u8>)
    requires
        w.len() == 8,
    ensures
        wal_step(bo, s, w).0 == (s.0 + native_word(bo, w, 0) + s.1) % 0x1_0000_0000,
        wal_step(bo, s, w).1 == (s.1 + native_word(bo, w, 4) + wal_step(bo, s, w).0)
            % 0x1_0000_0000,
{
    let a = w.subrange(0, 4);
    let b = w.subrange(4, 8);
    lemma_word(bo, a);
    lemma_word(bo, b);
    assert(native_word(bo, a, 0) == native_word(bo, w, 0));
    assert(native_word(bo, b, 0) == native_word(bo, w, 4));
    lemma_wrap(s.0, word(bo, a), s.1);
    lemma_wrap(s.1, word(bo, b), wal_step(bo, s, w).0);
}

/// The checksum of two parts is that of the second after the first.
pub proof fn lemma_sum_concat(bo: ByteOrder, s: (u32, u32), a: Seq<u8>, b: Seq<u8>)
    requires
        a.len() % 8 == 0,
        b.len() % 8 == 0,
    ensures
        wal_sum(bo, s, a + b) == wal_sum(bo, wal_sum(bo, s, a), b),
    decreases b.len(),
{
    if b.len() == 0 {
        assert(a + b =~= a);
    } else {
        let all = a + b;
        let front = b.take(b.len() - 8);
        lemma_sum_concat(bo, s, a, front);
        assert(all.take(all.len() - 8) =~= a + front);
        assert(all.skip(all.len() - 8) =~= b.skip(b.len() - 8));
    }
}

proof fn lemma_sum_is_sqlites(bo: ByteOrder, s: (u32, u32), b: Seq<u8>)
    requires
        b.len() % 8 == 0,
    ensures
        (wal_sum(bo, s, b).0 as int, wal_sum(bo, s, b).1 as int) == sqlite_sum(
            bo,
            s.0 as int,
            s.1 as int,
            b,
        ),
    decreases b.len(),
{
    if b.len() >= 8 {
        let a = b.take(8);
        let rest = b.skip(8);
        assert(b =~= a + rest);
        lemma_sum_concat(bo, s, a, rest);
        reveal_with_fuel(wal_sum, 2);
        assert(a.skip(a.len() - 8) =~= a);
        assert(wal_sum(bo, s, a) == wal_step(bo, s, a));
        lemma_step(bo, s, a);
        assert(native_word(bo, a, 0) == native_word(bo, b, 0));
        assert(native_word(bo, a, 4) == native_word(bo, b, 4));
        lemma_sum_is_sqlites(bo, wal_sum(bo, s, a), rest);
    }
}

/// The checksum that is computed is SQLite's, in either byte order.
pub proof fn lemma_checksum_is_sqlites(bo: ByteOrder, s0: u32, s1: u32, b: &[u8], r: (u32, u32))
    requires
        b@.len() % 8 == 0,
        call_ensures(wal_checksum, (bo, s0, s1, b), r),
    ensures
        (r.0 as int, r.1 as int) == sqlite_sum(bo, s0 as int, s1 as int, b@),
{
    lemma_sum_is_sqlites(bo, (s0, s1), b@);
}

/// `b` starts with the header that SQLite writes for these fields: the magic of the
/// byte order, the version, the fields, and the checksum of what comes before it.
pub open spec fn is_written_header(
    b: Seq<u8>,
    bo: ByteOrder,
    page_size: u32,
    seq: u32,
    salt1: u32,
    salt2: u32,
) -> bool {
    &&& b.len() >= 32
    &&& big_word(b, 0) == (match bo {
        ByteOrder::Little => 0x377f_0682,
        ByteOrder::Big => 0x377f_0683int,
    })
    &&& big_word(b, 4) == 3_007_000
    &&& big_word(b, 8) == page_size
    &&& big_word(b, 12) == seq
    &&& big_word(b, 16) == salt1
    &&& big_word(b, 20) == salt2
    &&& (big_word(b, 24), big_word(b, 28)) == sqlite_sum(bo, 0, 0, b.take(24))
}

/// A page size that SQLite supports: a power of two from 512 to 65536.
pub open spec fn sqlite_page_size(sz: u32) -> bool {
    sz == 512 || sz == 1024 || sz == 2048 || sz == 4096 || sz == 8192 || sz == 16384 || sz == 32768
        || sz == 65536
}

proof fn lemma_field(b: Seq<u8>, off: int)
    requires
        0 <= off,
        off + 4 <= b.len(),
    ensures
        be_value(b.subrange(off, off + 4)) == big_word(b, off),
        0 <= big_word(b, off) <= u32::MAX,
{
    lemma_digits(b.subrange(off, off + 4));
}

/// A header that SQLite wrote reads back, whatever its fields, in either byte order.
pub proof fn lemma_written_header_reads_back(
    b: &[u8],
    bo: ByteOrder,
    page_size: u32,
    seq: u32,
    salt1: u32,
    salt2: u32,
    r: Result<WalHeader, WalError>,
)
    requires
        is_written_header(b@, bo, page_size, seq, salt1, salt2),
        sqlite_page_size(page_size),
        call_ensures(WalHeader::parse, (b,), r),
    ensures
        r == Ok::<WalHeader, WalError>(
            WalHeader {
                byte_order: bo,
                page_size,
                seq,
                salt1,
                salt2,
                checksum1: big_word(b@, 24) as u32,
                checksum2: big_word(b@, 28) as u32,
            },
        ),
{
    lemma_field(b@, 0);
    lemma_field(b@, 4);
    lemma_field(b@, 8);
    lemma_field(b@, 12);
    lemma_field(b@, 16);
    lemma_field(b@, 20);
    lemma_field(b@, 24);
    lemma_field(b@, 28);
    lemma_sum_is_sqlites(bo, (0, 0), b@.take(24));
}

/// Nothing but a header that SQLite could have written is accepted.
pub proof fn lemma_accepted_header_is_written(b: &[u8], r: Result<WalHeader, WalError>)
    requires
        call_ensures(WalHeader::parse, (b,), r),
    ensures
        r matches Ok(h) ==> {
            &&& is_written_header(b@, h.byte_order, h.page_size, h.seq, h.salt1, h.salt2)
            &&& sqlite_page_size(h.page_size)
            &&& h.checksum1 == big_word(b@, 24)
            &&& h.checksum2 == big_word(b@, 28)
        },
        r matches Err(e) ==> match e {
            WalError::Incomplete { need, got } => b@.len() < 32 && need == 32 && got == b@.len(),
            WalError::InvalidMagic(m) => m == big_word(b@, 0) && m != 0x377f_0682u32 && m
                != 0x377f_0683u32,
            WalError::UnsupportedVersion(v) => v == big_word(b@, 4) && v != 3_007_000u32,
            WalError::InvalidPageSize(sz) => sz == big_word(b@, 8) && !sqlite_page_size(sz),
            WalError::HeaderChecksumMismatch => {
                &&& big_word(b@, 0) == 0x377f_0682 ==> (big_word(b@, 24), big_word(b@, 28))
                    != sqlite_sum(ByteOrder::Little, 0, 0, b@.take(24))
                &&& big_word(b@, 0) == 0x377f_0683 ==> (big_word(b@, 24), big_word(b@, 28))
                    != sqlite_sum(ByteOrder::Big, 0, 0, b@.take(24))
            },
            _ => false,
        },
{
    if b@.len() >= 32 {
        lemma_field(b@, 0);
        lemma_field(b@, 4);
        lemma_field(b@, 8);
        lemma_field(b@, 12);
        lemma_field(b@, 16);
        lemma_field(b@, 20);
        lemma_field(b@, 24);
        lemma_field(b@, 28);
        lemma_sum_is_sqlites(ByteOrder::Little, (0, 0), b@.take(24));
        lemma_sum_is_sqlites(ByteOrder::Big, (0, 0), b@.take(24));
    }
}

/// A frame header reads back: its fields stand where SQLite writes them.
pub proof fn lemma_frame_header_fields(b: &[u8], h: WalFrameHeader)
    requires
        b@.len() >= 24,
        call_ensures(WalFrameHeader::parse, (b,), h),
    ensures
        h.pgno == big_word(b@, 0),
        h.commit == big_word(b@, 4),
        h.salt1 == big_word(b@, 8),
        h.salt2 == big_word(b@, 12),
        h.checksum1 == big_word(b@, 16),
        h.checksum2 == big_word(b@, 20),
{
    lemma_frame_fields(b@);
}

/// The fields of a frame header stand where SQLite writes them.
pub proof fn lemma_frame_fields(b: Seq<u8>)
    requires
        b.len() >= 24,
    ensures
        ({
            let h = frame_header_of(b);
            &&& h.pgno == big_word(b, 0)
            &&& h.commit == big_word(b, 4)
            &&& h.salt1 == big_word(b, 8)
            &&& h.salt2 == big_word(b, 12)
            &&& h.checksum1 == big_word(b, 16)
            &&& h.checksum2 == big_word(b, 20)
        }),
{
    lemma_field(b, 0);
    lemma_field(b, 4);
    lemma_field(b, 8);
    lemma_field(b, 12);
    lemma_field(b, 16);
    lemma_field(b, 20);
}

/// A frame to be written: its page, the size of the database where it commits (else
/// 0), and the page data.
#[verifier::ext_equal]
pub struct WrittenFrame {
    pub pgno: u32,
    pub commit: u32,
    pub data: Seq<u8>,
}

/// The checksum state after a frame is written after the state `s`: over the first
/// eight bytes of its header, then its page.
pub open spec fn frame_seal(bo: ByteOrder, s: (int, int), b: Seq<u8>) -> (int, int) {
    let t = sqlite_sum(bo, s.0, s.1, b.take(8));
    sqlite_sum(bo, t.0, t.1, b.skip(24))
}

/// `b` is the frame `w` as SQLite writes it in the generation of `h` after the
/// checksum state `s`.
pub open spec fn is_written_frame(
    b: Seq<u8>,
    h: WalHeader,
    s: (int, int),
    w: WrittenFrame,
) -> bool {
    &&& w.data.len() == h.page_size
    &&& b.len() == 24 + h.page_size
    &&& big_word(b, 0) == w.pgno
    &&& big_word(b, 4) == w.commit
    &&& big_word(b, 8) == h.salt1
    &&& big_word(b, 12) == h.salt2
    &&& (big_word(b, 16), big_word(b, 20)) == frame_seal(h.byte_order, s, b)
    &&& b.skip(24) == w.data
}

/// The frames `ws` stand one after another in `b` from `pos` on as SQLite writes
/// them, the first after the checksum state `s`.
pub open spec fn are_written_frames(
    b: Seq<u8>,
    pos: int,
    h: WalHeader,
    s: (int, int),
    ws: Seq<WrittenFrame>,
) -> bool
    decreases ws.len(),
{
    ws.len() == 0 || {
        let end = pos + 24 + h.page_size;
        let f = b.subrange(pos, end);
        &&& end <= b.len()
        &&& is_written_frame(f, h, s, ws.first())
        &&& are_written_frames(b, end, h, frame_seal(h.byte_order, s, f), ws.drop_first())
    }
}

proof fn lemma_frame_sum(h: WalHeader, chk: (u32, u32), f: Seq<u8>)
    requires
        f.len() == 24 + h.page_size,
        h.page_size % 8 == 0,
    ensures
        (frame_sum(h, chk, f).0 as int, frame_sum(h, chk, f).1 as int) == frame_seal(
            h.byte_order,
            (chk.0 as int, chk.1 as int),
            f,
        ),
{
    lemma_sum_is_sqlites(h.byte_order, chk, f.take(8));
    lemma_sum_is_sqlites(h.byte_order, wal_sum(h.byte_order, chk, f.take(8)), f.skip(24));
}

/// The frame that SQLite wrote at `pos` is read there.
proof fn lemma_written_frame_is_read(
    data: Seq<u8>,
    h: WalHeader,
    base: int,
    pos: int,
    chk: (u32, u32),
    w: WrittenFrame,
)
    requires
        0 <= pos,
        h.page_size % 8 == 0,
        pos + 24 + h.page_size <= data.len(),
        is_written_frame(
            data.subrange(pos, pos + 24 + h.page_size),
            h,
            (chk.0 as int, chk.1 as int),
            w,
        ),
    ensures
        frame_at(data, h, base, pos, chk) == Some(
            FrameView {
                pgno: w.pgno,
                commit: w.commit,
                offset: (base + pos) as u64,
                data: w.data,
            },
        ),
{
    let f = data.subrange(pos, pos + 24 + h.page_size);
    lemma_frame_fields(f);
    lemma_frame_sum(h, chk, f);
}

/// What SQLite wrote is read: of the frames that stand in the WAL, each is read in
/// its turn, with its page, its commit size, its offset and its data, and after them
/// reading goes on.
pub proof fn lemma_written_frames_read_back(
    data: Seq<u8>,
    h: WalHeader,
    base: int,
    pos: int,
    chk: (u32, u32),
    ws: Seq<WrittenFrame>,
)
    requires
        0 <= pos,
        0 <= base,
        base + data.len() <= u64::MAX,
        h.page_size % 8 == 0,
        are_written_frames(data, pos, h, (chk.0 as int, chk.1 as int), ws),
    ensures
        frames_from(data, h, base, pos, chk).len() >= ws.len(),
        forall|i: int|
            0 <= i < ws.len() ==> #[trigger] frames_from(data, h, base, pos, chk)[i] == (FrameView {
                pgno: ws[i].pgno,
                commit: ws[i].commit,
                offset: (base + pos + i * (24 + h.page_size)) as u64,
                data: ws[i].data,
            }),
    decreases ws.len(),
{
    if ws.len() > 0 {
        let n = 24 + h.page_size;
        let f = data.subrange(pos, pos + n);
        lemma_written_frame_is_read(data, h, base, pos, chk, ws.first());
        lemma_frame_sum(h, chk, f);
        let next = sum_after(data, h, pos, chk);
        lemma_written_frames_read_back(data, h, base, pos + n, next, ws.drop_first());
        let rest = frames_from(data, h, base, pos + n, next);
        let all = frames_from(data, h, base, pos, chk);
        assert(all == seq![frame_at(data, h, base, pos, chk)->0] + rest);
        assert forall|i: int| 0 <= i < ws.len() implies #[trigger] all[i] == (FrameView {
            pgno: ws[i].pgno,
            commit: ws[i].commit,
            offset: (base + pos + i * n) as u64,
            data: ws[i].data,
        }) by {
            if i > 0 {
                assert(all[i] == rest[i - 1]);
                assert(ws.drop_first()[i - 1] == ws[i]);
                assert(n + (i - 1) * n == i * n) by (nonlinear_arith);
            } else {
                assert(0 * n == 0) by (nonlinear_arith);
            }
        }
    }
}

/// Nothing is read but what SQLite wrote: the frames that are read stand in the WAL
/// one after another, in its generation, each sealed after the one before it.
pub proof fn lemma_read_frames_are_written(
    data: Seq<u8>,
    h: WalHeader,
    base: int,
    pos: int,
    chk: (u32, u32),
)
    requires
        0 <= pos,
        h.page_size % 8 == 0,
    ensures
        are_written_frames(
            data,
            pos,
            h,
            (chk.0 as int, chk.1 as int),
            frames_from(data, h, base, pos, chk).map_values(
                |f: FrameView| WrittenFrame { pgno: f.pgno, commit: f.commit, data: f.data },
            ),
        ),
    decreases data.len() - pos,
{
    let g = |f: FrameView| WrittenFrame { pgno: f.pgno, commit: f.commit, data: f.data };
    let all = frames_from(data, h, base, pos, chk);
    if let Some(fv) = frame_at(data, h, base, pos, chk) {
        let n = frame_size(h.page_size);
        let f = data.subrange(pos, pos + n);
        lemma_frame_fields(f);
        lemma_frame_sum(h, chk, f);
        let next = sum_after(data, h, pos, chk);
        lemma_read_frames_are_written(data, h, base, pos + n, next);
        let rest = frames_from(data, h, base, pos + n, next);
        assert(all.map_values(g).first() == g(fv));
        assert(all.map_values(g).drop_first() =~= rest.map_values(g));
    }
}

/// A WAL that ends within a frame, and one that goes on with a frame of another
/// generation, is read up to there.
pub proof fn lemma_reading_stops(
    data: Seq<u8>,
    h: WalHeader,
    base: int,
    pos: int,
    chk: (u32, u32),
)
    requires
        0 <= pos,
        pos + 24 + h.page_size > data.len() || big_word(data, pos + 8) != h.salt1 || big_word(
            data,
            pos + 12,
        ) != h.salt2,
    ensures
        frames_from(data, h, base, pos, chk).len() == 0,
{
    if pos + 24 + h.page_size <= data.len() {
        let f = data.subrange(pos, pos + 24 + h.page_size);
        lemma_frame_fields(f);
        assert(big_word(f, 8) == big_word(data, pos + 8));
        assert(big_word(f, 12) == big_word(data, pos + 12));
    }
}

/// Frame `i` is the last one that commits.
pub open spec fn last_commit(fs: Seq<FrameView>, i: int) -> bool {
    &&& 0 <= i < fs.len()
    &&& fs[i].commit != 0
    &&& forall|j: int| i < j < fs.len() ==> (#[trigger] fs[j]).commit == 0
}

/// The frames up to the last one that commits count, and its size is that of the
/// database; without one, nothing counts.
pub proof fn lemma_last_commit_counts(fs: Seq<FrameView>)
    ensures
        forall|i: int| #[trigger]
            last_commit(fs, i) ==> committed(fs) == i + 1 && final_commit(fs) == fs[i].commit,
        (forall|i: int| 0 <= i < fs.len() ==> (#[trigger] fs[i]).commit == 0) ==> committed(fs) == 0
            && final_commit(fs) == 0,
{
    lemma_committed_bound(fs);
    let n = committed(fs) as int;
    assert forall|i: int| #[trigger] last_commit(fs, i) implies committed(fs) == i + 1
        && final_commit(fs) == fs[i].commit by {
        if n < i + 1 {
            assert(fs[i].commit == 0);
        } else if n > i + 1 {
            assert(fs[n - 1].commit == 0);
        }
    }
}

proof fn lemma_newest_holds(fs: Seq<FrameView>, commit: u32, i: int)
    requires
        0 <= i < fs.len(),
        fs[i].pgno <= commit,
    ensures
        newest_offsets(fs, commit).contains_key(fs[i].pgno),
    decreases fs.len(),
{
    if i < fs.len() - 1 {
        lemma_newest_holds(fs.drop_last(), commit, i);
        assert(fs.drop_last()[i] == fs[i]);
    }
}

/// The page map holds exactly the pages of committed frames that the final size keeps,
/// each at its newest committed frame.
pub proof fn lemma_page_map_holds_the_newest(fs: Seq<FrameView>, p: u32)
    ensures
        committed_pages(fs).contains_key(p) <==> p <= final_commit(fs) && exists|i: int|
            0 <= i < committed(fs) && (#[trigger] fs[i]).pgno == p,
        forall|i: int|
            {
                &&& 0 <= i < committed(fs)
                &&& (#[trigger] fs[i]).pgno == p
                &&& p <= final_commit(fs)
                &&& forall|j: int| i < j < committed(fs) ==> (#[trigger] fs[j]).pgno != p
            } ==> committed_pages(fs)[p] == fs[i].offset,
{
    lemma_committed_bound(fs);
    let n = committed(fs) as int;
    let front = fs.take(n);
    if committed_pages(fs).contains_key(p) {
        lemma_committed_pages(fs, p);
    }
    if p <= final_commit(fs) && exists|i: int| 0 <= i < n && (#[trigger] fs[i]).pgno == p {
        let i = choose|i: int| 0 <= i < n && (#[trigger] fs[i]).pgno == p;
        assert(front[i] == fs[i]);
        lemma_newest_holds(front, final_commit(fs), i);
    }
    assert forall|i: int|
        {
            &&& 0 <= i < n
            &&& (#[trigger] fs[i]).pgno == p
            &&& p <= final_commit(fs)
            &&& forall|j: int| i < j < n ==> (#[trigger] fs[j]).pgno != p
        } implies committed_pages(fs)[p] == fs[i].offset by {
        let k = choose|k: int|
            0 <= k < n && (#[trigger] fs[k]).pgno == p && fs[k].offset == committed_pages(fs)[p]
                && forall|j: int| k < j < n ==> (#[trigger] fs[j]).pgno != p;
        assert(!(k < i) && !(i < k));
    }
}

/// The end of the kept frames is that of the last one, and 0 where there is none.
pub proof fn lemma_kept_end(fs: Seq<FrameView>, commit: u32, page_size: u32)
    ensures
        (forall|i: int| 0 <= i < fs.len() ==> (#[trigger] fs[i]).pgno > commit) ==> kept_end(
            fs,
            commit,
            page_size,
        ) == 0,
        forall|i: int|
            {
                &&& 0 <= i < fs.len()
                &&& (#[trigger] fs[i]).pgno <= commit
                &&& forall|j: int| i < j < fs.len() ==> (#[trigger] fs[j]).pgno > commit
            } ==> kept_end(fs, commit, page_size) == fs[i].offset + 24 + page_size,
    decreases fs.len(),
{
    if fs.len() > 0 {
        let front = fs.drop_last();
        lemma_kept_end(front, commit, page_size);
        assert(fs.last() == fs[fs.len() - 1]);
        if fs.last().pgno > commit {
            if forall|i: int| 0 <= i < fs.len() ==> (#[trigger] fs[i]).pgno > commit {
                assert forall|i: int| 0 <= i < front.len() implies (#[trigger] front[i]).pgno
                    > commit by {
                    assert(front[i] == fs[i]);
                }
            }
            assert forall|i: int|
                {
                    &&& 0 <= i < fs.len()
                    &&& (#[trigger] fs[i]).pgno <= commit
                    &&& forall|j: int| i < j < fs.len() ==> (#[trigger] fs[j]).pgno > commit
                } implies kept_end(fs, commit, page_size) == fs[i].offset + 24 + page_size by {
                assert(front[i] == fs[i]);
                assert forall|j: int| i < j < front.len() implies (#[trigger] front[j]).pgno
                    > commit by {
                    assert(front[j] == fs[j]);
                }
            }
        }
    }
}

/// What was read of a WAL ends behind the last committed frame whose page the final size
/// keeps.
pub proof fn lemma_read_up_to_the_last_kept_frame(fs: Seq<FrameView>, page_size: u32, i: int)
    requires
        0 <= i < committed(fs),
        fs[i].pgno <= final_commit(fs),
        forall|j: int| i < j < committed(fs) ==> (#[trigger] fs[j]).pgno > final_commit(fs),
    ensures
        committed_end(fs, page_size) == fs[i].offset + 24 + page_size,
{
    lemma_committed_bound(fs);
    let front = fs.take(committed(fs) as int);
    lemma_kept_end(front, final_commit(fs), page_size);
    assert(front[i] == fs[i]);
    assert forall|j: int| i < j < front.len() implies (#[trigger] front[j]).pgno > final_commit(
        fs,
    ) by {
        assert(front[j] == fs[j]);
    }
}

/// A reader starts only behind the header and a whole number of frames, and behind a frame
/// only where that frame is of the WAL's present salts; it goes on from the checksum that
/// the frame states.
pub proof fn lemma_readers_start_at_frames(
    data: &[u8],
    offset: u64,
    header: Result<WalHeader, WalError>,
    r: Result<WalReader, WalError>,
)
    requires
        call_ensures(WalHeader::parse, (data,), header),
        call_ensures(WalReader::new_at_offset, (data, offset), r),
    ensures
        header matches Err(e) ==> (r matches Err(x) && x == e),
        header matches Ok(h) ==> {
            let size = 24 + h.page_size;
            let prev = offset - size;
            let at_frame = offset >= 32 && (offset - 32) % size == 0;
            let follows = prev >= 32 && prev + 24 <= data@.len() && big_word(data@, prev + 8)
                == h.salt1 && big_word(data@, prev + 12) == h.salt2;
            &&& r is Ok <==> at_frame && (offset == 32 || follows)
            &&& !at_frame ==> (r matches Err(x) && x == WalError::UnalignedOffset(offset))
            &&& at_frame && offset != 32 && !follows ==> (r matches Err(x) && x
                == WalError::PrevFrameMismatch)
            &&& r matches Ok(w) ==> w.ahead() == frames_from(
                data@,
                h,
                0,
                offset as int,
                if offset == 32 {
                    (h.checksum1, h.checksum2)
                } else {
                    (big_word(data@, prev + 16) as u32, big_word(data@, prev + 20) as u32)
                },
            )
        },
{
    if let Ok(h) = header {
        let size = 24 + h.page_size;
        let prev = offset - size;
        if offset >= 32 && (offset - 32) % size == 0 && offset != 32 {
            assert(prev >= 32) by {
                vstd::arithmetic::div_mod::lemma_fundamental_div_mod(offset - 32, size);
                let q = (offset - 32) / size;
                assert(q >= 1 && size * q >= size) by (nonlinear_arith)
                    requires
                        size * q > 0,
                        size > 0,
                ;
            }
            if prev + 24 <= data@.len() {
                let f = data@.subrange(prev, prev + 24);
                lemma_field(f, 8);
                lemma_field(f, 12);
                lemma_field(f, 16);
                lemma_field(f, 20);
            }
        }
    }
}

/// A frame commits where it states a size, and its page follows its header.
pub proof fn lemma_frames_and_their_pages(
    h: WalFrameHeader,
    commits: bool,
    w: WalReader,
    offset: u64,
    d: &[u8],
)
    requires
        call_ensures(WalFrameHeader::is_commit, (&h,), commits),
        w.wf(),
        w.base() <= offset,
        offset + 24 + w.spec_header().page_size <= w.base() + w.bytes().len(),
        call_ensures(WalReader::page_data_at, (&w, offset), d),
    ensures
        commits <==> h.commit > 0,
        d@.len() == w.spec_header().page_size,
        forall|i: int|
            0 <= i < d@.len() ==> #[trigger] d@[i] == w.bytes()[offset - w.base() + 24 + i],
{
}

/// A reader of the whole WAL starts behind its header; and reading only the tail from some
/// frame on, with the checksum that the frame before it states, gives what is read from
/// there of the whole.
pub proof fn lemma_readers_agree(
    data: &[u8],
    offset: u64,
    header: WalHeader,
    seed: (u32, u32),
    tail: &[u8],
    whole: Result<WalReader, WalError>,
    first: Result<WalReader, WalError>,
    from: Result<WalReader, WalError>,
    of_tail: Result<WalReader, WalError>,
)
    requires
        call_ensures(WalHeader::parse, (data,), Ok::<WalHeader, WalError>(header)),
        call_ensures(WalReader::new, (data,), whole),
        call_ensures(WalReader::new_at_offset, (data, 32u64), first),
        call_ensures(WalReader::new_at_offset, (data, offset), from),
        from is Ok,
        offset <= data@.len(),
        tail@ == data@.skip(offset as int),
        seed == (if offset == 32 {
            (header.checksum1, header.checksum2)
        } else {
            let prev = offset - 24 - header.page_size;
            (big_word(data@, prev + 16) as u32, big_word(data@, prev + 20) as u32)
        }),
        call_ensures(WalReader::from_tail, (header, tail, offset, seed), of_tail),
    ensures
        whole matches Ok(w) && (first matches Ok(f) && w.ahead() == f.ahead()),
        of_tail matches Ok(t) && t.ahead() == from->Ok_0.ahead(),
{
    lemma_readers_start_at_frames(
        data,
        offset,
        Ok::<WalHeader, WalError>(header),
        from,
    );
    lemma_tail_reads_the_same(data@, header, offset as int, 0, seed);
}

/// Frames are read one after another, each once, until there is none.
pub proof fn lemma_frames_are_read_in_turn(w: &mut WalReader, r: Option<Frame>)
    requires
        old(w).wf(),
        call_ensures(WalReader::read_frame, (w,), r),
    ensures
        r is None <==> old(w).ahead().len() == 0,
        r matches Some(f) ==> old(w).ahead() == seq![f@] + final(w).ahead(),
        r is None ==> final(w).ahead().len() == 0,
{
    if let Some(f) = r {
        assert(old(w).ahead() =~= seq![f@] + final(w).ahead());
    }
}

} // verus!
