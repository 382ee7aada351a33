//! The format byte by byte: where each number of a header, a page header, a trailer and an
//! index stands, and what makes one of them readable.

use crate::ltx::checksum::{CHECKSUM_FLAG, Checksum, Hasher, checksum_page, flagged_crc64};
use crate::ltx::error::LtxError;
use crate::ltx::format::{
    Header, PageHeader, Trailer, header_bytes, is_valid_page_size, lemma_header_layout,
    lemma_page_header_round_trip, lemma_trailer_round_trip, lock_pgno,
};
use crate::ltx::index::{
    PageIndexElem, decode_page_index, find_index, index_of, lemma_varint_round_trip, page_index,
    page_index_of, uvarint, varint, varint_from,
};
use crate::text::{digits_value, lemma_hex_fixed_len, lemma_hex_round_trip, pow16};
use crate::wire::{
    be_bytes, be_u16, be_u32, be_u64, be_value, bits_i64, i64_bits, i64_from_bits, i64_to_bits,
    lemma_be_round_trip, lemma_pow256_values,
};
use vstd::arithmetic::power2::{lemma2_to64, pow2};
use vstd::prelude::*;

verus! {

/// The 16-bit number that the two bytes of `b` at `off` spell, most significant byte
/// first.
pub open spec fn word16(b: Seq<u8>, off: int) -> int {
    b[off] * 0x100 + b[off + 1]
}

/// The 32-bit number that the four bytes of `b` at `off` spell, most significant byte
/// first.
pub open spec fn word32(b: Seq<u8>, off: int) -> int {
    b[off] * 0x100_0000 + b[off + 1] * 0x1_0000 + b[off + 2] * 0x100 + b[off + 3]
}

/// The 64-bit number that the eight bytes of `b` at `off` spell, most significant byte
/// first.
pub open spec fn word64(b: Seq<u8>, off: int) -> int {
    word32(b, off) * 0x1_0000_0000 + word32(b, off + 4)
}

/// The 64-bit number of `b` at `off` in two's complement.
pub open spec fn signed64(b: Seq<u8>, off: int) -> int {
    if b[off] < 128 {
        word64(b, off)
    } else {
        word64(b, off) - 0x1_0000_0000_0000_0000
    }
}

/// A page size that SQLite supports.
pub open spec fn power_page_size(sz: int) -> bool {
    exists|k: nat| 9 <= k <= 16 && sz == #[trigger] pow2(k)
}

/// Two bytes spell a 16-bit number.
pub proof fn lemma_word16(b: Seq<u8>, off: int)
    requires
        0 <= off,
        off + 2 <= b.len(),
    ensures
        be_value(b.subrange(off, off + 2)) == word16(b, off),
        0 <= word16(b, off) <= u16::MAX,
{
    let s = b.subrange(off, off + 2);
    let s1 = s.drop_last();
    assert(s1.drop_last() =~= Seq::empty());
    reveal_with_fuel(be_value, 3);
}

/// Four bytes spell a 32-bit number.
pub proof fn lemma_word32(b: Seq<u8>, off: int)
    requires
        0 <= off,
        off + 4 <= b.len(),
    ensures
        be_value(b.subrange(off, off + 4)) == word32(b, off),
        0 <= word32(b, off) <= u32::MAX,
{
    let s = b.subrange(off, off + 4);
    let s3 = s.drop_last();
    let s2 = s3.drop_last();
    let s1 = s2.drop_last();
    assert(s1.drop_last() =~= Seq::empty());
    reveal_with_fuel(be_value, 5);
}

/// Eight bytes spell a 64-bit number.
pub proof fn lemma_word64(b: Seq<u8>, off: int)
    requires
        0 <= off,
        off + 8 <= b.len(),
    ensures
        be_value(b.subrange(off, off + 8)) == word64(b, off),
        0 <= word64(b, off) <= u64::MAX,
        bits_i64(word64(b, off) as u64) == signed64(b, off),
{
    let s = b.subrange(off, off + 8);
    let s7 = s.drop_last();
    let s6 = s7.drop_last();
    let s5 = s6.drop_last();
    let s4 = s5.drop_last();
    assert(s4 =~= b.subrange(off, off + 4));
    lemma_word32(b, off);
    lemma_word32(b, off + 4);
    reveal_with_fuel(be_value, 5);
}

/// A page size is accepted exactly where it is a power of two from 512 to 65536.
pub proof fn lemma_page_sizes(sz: u32, r: bool)
    requires
        call_ensures(is_valid_page_size, (sz,), r),
    ensures
        r <==> power_page_size(sz as int),
{
    lemma2_to64();
    if r {
        if sz == 512 {
            assert(sz == pow2(9));
        } else if sz == 1024 {
            assert(sz == pow2(10));
        } else if sz == 2048 {
            assert(sz == pow2(11));
        } else if sz == 4096 {
            assert(sz == pow2(12));
        } else if sz == 8192 {
            assert(sz == pow2(13));
        } else if sz == 16384 {
            assert(sz == pow2(14));
        } else if sz == 32768 {
            assert(sz == pow2(15));
        } else {
            assert(sz == pow2(16));
        }
    }
    if power_page_size(sz as int) {
        let k = choose|k: nat| 9 <= k <= 16 && sz == #[trigger] pow2(k);
        assert(k == 9 || k == 10 || k == 11 || k == 12 || k == 13 || k == 14 || k == 15 || k == 16);
    }
}

/// The lock page is the one in which the byte at 1 GiB lies.
pub proof fn lemma_lock_page_holds_the_lock_byte(page_size: u32, r: u32)
    requires
        page_size > 0,
        call_ensures(lock_pgno, (page_size,), r),
    ensures
        (r - 1) * page_size <= 0x4000_0000 < r * page_size,
{
    let q = 0x4000_0000int / (page_size as int);
    vstd::arithmetic::div_mod::lemma_fundamental_div_mod(0x4000_0000, page_size as int);
    assert(r - 1 == q);
    assert((q + 1) * page_size == q * page_size + page_size) by (nonlinear_arith);
    assert(q * page_size == page_size * q) by (nonlinear_arith);
}

/// A header is 100 bytes: `LTX1`, then its numbers in a fixed order, then zeros.
#[verifier::rlimit(30)]
pub proof fn lemma_header_is_written(h: Header, b: Vec<u8>)
    requires
        call_ensures(Header::encode, (&h,), b),
    ensures
        b@.len() == 100,
        b@[0] == 76 && b@[1] == 84 && b@[2] == 88 && b@[3] == 49,
        word32(b@, 4) == h.flags,
        word32(b@, 8) == h.page_size,
        word32(b@, 12) == h.commit,
        word64(b@, 16) == h.min_txid,
        word64(b@, 24) == h.max_txid,
        signed64(b@, 32) == h.timestamp,
        word64(b@, 40) == h.pre_apply_checksum.0,
        signed64(b@, 48) == h.wal_offset,
        signed64(b@, 56) == h.wal_size,
        word32(b@, 64) == h.wal_salt1,
        word32(b@, 68) == h.wal_salt2,
        word64(b@, 72) == h.node_id,
        forall|i: int| 80 <= i < 100 ==> #[trigger] b@[i] == 0,
{
    lemma_header_layout(h);
    lemma_pow256_values();
    let s = b@;
    assert(s.subrange(0, 4)[0] == 76 && s.subrange(0, 4)[1] == 84 && s.subrange(0, 4)[2] == 88
        && s.subrange(0, 4)[3] == 49);
    lemma_be_round_trip(h.flags as nat, 4);
    lemma_be_round_trip(h.page_size as nat, 4);
    lemma_be_round_trip(h.commit as nat, 4);
    lemma_be_round_trip(h.min_txid as nat, 8);
    lemma_be_round_trip(h.max_txid as nat, 8);
    lemma_be_round_trip(i64_bits(h.timestamp) as nat, 8);
    lemma_be_round_trip(h.pre_apply_checksum.0 as nat, 8);
    lemma_be_round_trip(i64_bits(h.wal_offset) as nat, 8);
    lemma_be_round_trip(i64_bits(h.wal_size) as nat, 8);
    lemma_be_round_trip(h.wal_salt1 as nat, 4);
    lemma_be_round_trip(h.wal_salt2 as nat, 4);
    lemma_be_round_trip(h.node_id as nat, 8);
    lemma_word32(s, 4);
    lemma_word32(s, 8);
    lemma_word32(s, 12);
    lemma_word64(s, 16);
    lemma_word64(s, 24);
    lemma_word64(s, 32);
    lemma_word64(s, 40);
    lemma_word64(s, 48);
    lemma_word64(s, 56);
    lemma_word32(s, 64);
    lemma_word32(s, 68);
    lemma_word64(s, 72);
    reveal(header_bytes);
}

/// A header is read where there are 100 bytes that start with `LTX1` and state a page size
/// that SQLite supports; and each number is read where it is written.
#[verifier::rlimit(30)]
pub proof fn lemma_header_is_read(b: &[u8], r: Result<Header, LtxError>)
    requires
        call_ensures(Header::decode, (b,), r),
    ensures
        r is Ok <==> {
            &&& b@.len() >= 100
            &&& b@[0] == 76 && b@[1] == 84 && b@[2] == 88 && b@[3] == 49
            &&& power_page_size(word32(b@, 8))
        },
        r matches Ok(h) ==> {
            &&& h.flags == word32(b@, 4)
            &&& h.page_size == word32(b@, 8)
            &&& h.commit == word32(b@, 12)
            &&& h.min_txid == word64(b@, 16)
            &&& h.max_txid == word64(b@, 24)
            &&& h.timestamp == signed64(b@, 32)
            &&& h.pre_apply_checksum.0 == word64(b@, 40)
            &&& h.wal_offset == signed64(b@, 48)
            &&& h.wal_size == signed64(b@, 56)
            &&& h.wal_salt1 == word32(b@, 64)
            &&& h.wal_salt2 == word32(b@, 68)
            &&& h.node_id == word64(b@, 72)
        },
        b@.len() < 100 ==> r == Err::<Header, LtxError>(
            LtxError::ShortBuffer { need: 100, got: b@.len() as usize },
        ),
        b@.len() >= 100 && !(b@[0] == 76 && b@[1] == 84 && b@[2] == 88 && b@[3] == 49) ==> r
            == Err::<Header, LtxError>(LtxError::InvalidMagic([b@[0], b@[1], b@[2], b@[3]])),
        b@.len() >= 100 && b@[0] == 76 && b@[1] == 84 && b@[2] == 88 && b@[3] == 49
            && !power_page_size(word32(b@, 8)) ==> r == Err::<Header, LtxError>(
            LtxError::InvalidPageSize(word32(b@, 8) as u32),
        ),
{
    let s = b@;
    if s.len() >= 100 {
        let m = s.subrange(0, 4);
        assert(m[0] == s[0] && m[1] == s[1] && m[2] == s[2] && m[3] == s[3]);
        if s[0] == 76 && s[1] == 84 && s[2] == 88 && s[3] == 49 {
            assert(m =~= crate::ltx::format::MAGIC@);
        }
        lemma_word32(s, 4);
        lemma_word32(s, 8);
        lemma_word32(s, 12);
        lemma_word64(s, 16);
        lemma_word64(s, 24);
        lemma_word64(s, 32);
        lemma_word64(s, 40);
        lemma_word64(s, 48);
        lemma_word64(s, 56);
        lemma_word32(s, 64);
        lemma_word32(s, 68);
        lemma_word64(s, 72);
        lemma_supported(word32(s, 8));
    }
}

/// The supported page sizes are the powers of two from 512 to 65536.
pub proof fn lemma_supported(sz: int)
    requires
        0 <= sz <= u32::MAX,
    ensures
        crate::ltx::format::valid_page_size(sz as u32) <==> power_page_size(sz),
{
    lemma2_to64();
    if crate::ltx::format::valid_page_size(sz as u32) {
        assert(sz == pow2(9) || sz == pow2(10) || sz == pow2(11) || sz == pow2(12) || sz == pow2(13)
            || sz == pow2(14) || sz == pow2(15) || sz == pow2(16));
    }
    if power_page_size(sz) {
        let k = choose|k: nat| 9 <= k <= 16 && sz == #[trigger] pow2(k);
        assert(k == 9 || k == 10 || k == 11 || k == 12 || k == 13 || k == 14 || k == 15 || k == 16);
    }
}

/// A header may be written where its page size is supported, its TXIDs are positive and in
/// order, and a snapshot states no checksum before it; a fault is reported in that order.
pub proof fn lemma_headers_that_may_be_written(h: Header, r: Result<(), LtxError>)
    requires
        call_ensures(Header::validate, (&h,), r),
    ensures
        r is Ok <==> {
            &&& power_page_size(h.page_size as int)
            &&& 1 <= h.min_txid <= h.max_txid
            &&& h.min_txid == 1 ==> h.pre_apply_checksum == Checksum(0)
        },
        r matches Err(e) ==> e == (if !power_page_size(h.page_size as int) {
            LtxError::InvalidPageSize(h.page_size)
        } else if !(1 <= h.min_txid <= h.max_txid) {
            LtxError::InvalidTxidRange { min: h.min_txid, max: h.max_txid }
        } else {
            LtxError::SnapshotPreApplyChecksum
        }),
{
    lemma_supported(h.page_size as int);
}

/// A snapshot starts at TXID 1; checksums are off where the second bit of the flags is set.
pub proof fn lemma_header_kinds(h: Header, snapshot: bool, off: bool, lock: u32)
    requires
        h.page_size > 0,
        call_ensures(Header::is_snapshot, (&h,), snapshot),
        call_ensures(Header::no_checksum, (&h,), off),
        call_ensures(Header::lock_pgno, (&h,), lock),
    ensures
        snapshot <==> h.min_txid == 1,
        off <==> (h.flags / 2) % 2 == 1,
        (lock - 1) * h.page_size <= 0x4000_0000 < lock * h.page_size,
{
    let f = h.flags;
    assert(f & 2 != 0 <==> (f / 2) % 2 == 1) by (bit_vector);
    let q = 0x4000_0000int / (h.page_size as int);
    vstd::arithmetic::div_mod::lemma_fundamental_div_mod(0x4000_0000, h.page_size as int);
    vstd::arithmetic::div_mod::lemma_div_is_ordered_by_denominator(
        0x4000_0000,
        1,
        h.page_size as int,
    );
    assert(lock - 1 == q);
    assert((q + 1) * h.page_size == q * h.page_size + h.page_size) by (nonlinear_arith);
    assert(q * h.page_size == h.page_size * q) by (nonlinear_arith);
}

/// A page header is its page number and its flags.
pub proof fn lemma_page_header_is_written(h: PageHeader, b: Vec<u8>)
    requires
        call_ensures(PageHeader::encode, (&h,), b),
    ensures
        b@.len() == 6,
        word32(b@, 0) == h.pgno,
        word16(b@, 4) == h.flags,
{
    lemma_page_header_round_trip(h, Seq::empty());
    assert(b@ + Seq::<u8>::empty() =~= b@);
    lemma_word32(b@, 0);
    lemma_word16(b@, 4);
}

/// A page header is read from six bytes or more.
pub proof fn lemma_page_header_is_read(b: &[u8], r: Result<PageHeader, LtxError>)
    requires
        call_ensures(PageHeader::decode, (b,), r),
    ensures
        b@.len() >= 6 ==> (r matches Ok(h) && (h.pgno == word32(b@, 0) && h.flags == word16(
            b@,
            4,
        ))),
        b@.len() < 6 ==> r == Err::<PageHeader, LtxError>(
            LtxError::ShortBuffer { need: 6, got: b@.len() as usize },
        ),
{
    if b@.len() >= 6 {
        lemma_word32(b@, 0);
        lemma_word16(b@, 4);
    }
}

/// The end of the pages is six zero bytes; a page whose flags are odd is a sized block.
pub proof fn lemma_page_header_kinds(h: PageHeader, end: bool, block: bool)
    requires
        call_ensures(PageHeader::is_zero, (&h,), end),
        call_ensures(PageHeader::is_block_compressed, (&h,), block),
    ensures
        end <==> h.pgno == 0 && h.flags == 0,
        block <==> h.flags % 2 == 1,
{
    let f = h.flags;
    assert(f & 1 != 0 <==> f % 2 == 1) by (bit_vector);
}

/// A trailer is the checksum of the database, then that of the file.
pub proof fn lemma_trailer_is_written(t: Trailer, b: Vec<u8>)
    requires
        call_ensures(Trailer::encode, (&t,), b),
    ensures
        b@.len() == 16,
        word64(b@, 0) == t.post_apply_checksum.0,
        word64(b@, 8) == t.file_checksum.0,
{
    lemma_trailer_round_trip(t, Seq::empty());
    assert(b@ + Seq::<u8>::empty() =~= b@);
    lemma_word64(b@, 0);
    lemma_word64(b@, 8);
}

/// A trailer is read from sixteen bytes or more.
pub proof fn lemma_trailer_is_read(b: &[u8], r: Result<Trailer, LtxError>)
    requires
        call_ensures(Trailer::decode, (b,), r),
    ensures
        b@.len() >= 16 ==> (r matches Ok(t) && (t.post_apply_checksum.0 == word64(b@, 0)
            && t.file_checksum.0 == word64(b@, 8))),
        b@.len() < 16 ==> r == Err::<Trailer, LtxError>(
            LtxError::ShortBuffer { need: 16, got: b@.len() as usize },
        ),
{
    if b@.len() >= 16 {
        lemma_word64(b@, 0);
        lemma_word64(b@, 8);
    }
}

/// The number that seven-bit digits spell, least significant first.
pub open spec fn leb128(b: Seq<u8>) -> nat
    decreases b.len(),
{
    if b.len() == 0 {
        0
    } else {
        b[0] as nat % 128 + 128 * leb128(b.drop_first())
    }
}

/// A number in seven-bit digits: each byte but the last says that another follows.
pub open spec fn is_leb128(b: Seq<u8>) -> bool {
    &&& b.len() > 0
    &&& b.last() < 128
    &&& forall|i: int| 0 <= i < b.len() - 1 ==> #[trigger] b[i] >= 128
}

/// A number is written in seven-bit digits.
pub proof fn lemma_uvarint_spells(v: nat)
    ensures
        is_leb128(uvarint(v)),
        leb128(uvarint(v)) == v,
    decreases v,
{
    let b = uvarint(v);
    if v < 128 {
        assert(b.drop_first() =~= Seq::empty());
        reveal_with_fuel(leb128, 2);
    } else {
        lemma_uvarint_spells(v / 128);
        let rest = uvarint(v / 128);
        assert(b.drop_first() =~= rest);
        assert forall|i: int| 0 <= i < b.len() - 1 implies #[trigger] b[i] >= 128 by {
            if i > 0 {
                assert(b[i] == rest[i - 1]);
            }
        }
        assert(b.last() == rest.last());
    }
}

/// What is read of a variable-length number is the digits up to the first that nothing
/// follows, at most ten.
pub proof fn lemma_varint_reads_digits(b: Seq<u8>, v: u64, n: nat)
    requires
        varint(b) == Ok::<(u64, nat), LtxError>((v, n)),
    ensures
        1 <= n <= 10,
        n <= b.len(),
        is_leb128(b.take(n as int)),
        leb128(b.take(n as int)) == v,
{
    reveal(varint);
    lemma_digits_read(b, 0);
    let w = varint_from(b, 0)->Ok_0.0;
    crate::ltx::index::lemma_varint_fits(b);
    assert(b.subrange(0, n as int) =~= b.take(n as int));
}

proof fn lemma_digits_read(b: Seq<u8>, i: nat)
    requires
        varint_from(b, i) is Ok,
        i <= b.len(),
    ensures
        ({
            let (v, n) = varint_from(b, i)->Ok_0;
            &&& i < n <= b.len()
            &&& n <= 10
            &&& is_leb128(b.subrange(i as int, n as int))
            &&& leb128(b.subrange(i as int, n as int)) == v
        }),
    decreases b.len() - i,
{
    let (v, n) = varint_from(b, i)->Ok_0;
    if b[i as int] < 128 {
        let s = b.subrange(i as int, n as int);
        assert(s.drop_first() =~= Seq::empty());
        reveal_with_fuel(leb128, 2);
    } else {
        lemma_digits_read(b, i + 1);
        let s = b.subrange(i as int, n as int);
        let t = b.subrange((i + 1) as int, n as int);
        assert(s.drop_first() =~= t);
        assert(s.last() == t.last());
        assert forall|k: int| 0 <= k < s.len() - 1 implies #[trigger] s[k] >= 128 by {
            if k > 0 {
                assert(s[k] == t[k - 1]);
            }
        }
    }
}

/// An index is read entry by entry: page number, offset and size, of the page number the
/// low 32 bits.
pub proof fn lemma_index_entry(
    pgno: u64,
    offset: u64,
    size: u64,
    b: &[u8],
    rest: &[u8],
    r: Result<Vec<PageIndexElem>, LtxError>,
    after: Result<Vec<PageIndexElem>, LtxError>,
)
    requires
        pgno > 0,
        b@ == uvarint(pgno as nat) + uvarint(offset as nat) + uvarint(size as nat) + rest@,
        call_ensures(decode_page_index, (b,), r),
        call_ensures(decode_page_index, (rest,), after),
    ensures
        r is Ok <==> after is Ok,
        r matches Ok(es) ==> {
            let e = es@[0];
            &&& es@.len() == after->Ok_0@.len() + 1
            &&& es@.skip(1) == after->Ok_0@
            &&& e.pgno == pgno % 0x1_0000_0000
            &&& e.offset == offset
            &&& e.size == size
        },
        r matches Err(e) ==> after == Err::<Vec<PageIndexElem>, LtxError>(e),
{
    let p = uvarint(pgno as nat);
    let o = uvarint(offset as nat);
    let s = uvarint(size as nat);
    lemma_varint_round_trip(pgno, o + (s + rest@));
    lemma_varint_round_trip(offset, s + rest@);
    lemma_varint_round_trip(size, rest@);
    assert(b@ =~= p + (o + (s + rest@)));
    assert(b@.skip(p.len() as int) =~= o + (s + rest@));
    assert(b@.skip((p.len() + o.len()) as int) =~= s + rest@);
    assert(b@.skip((p.len() + o.len() + s.len()) as int) =~= rest@);
    if let Ok(es) = after {
        let e = PageIndexElem { pgno: (pgno % 0x1_0000_0000) as u32, offset, size };
        assert(index_of(b@) == Ok::<Seq<PageIndexElem>, LtxError>(seq![e] + es@));
        assert((seq![e] + es@).skip(1) =~= es@);
    }
}

/// An index ends at a zero, whatever follows.
pub proof fn lemma_index_ends_at_zero(b: &[u8], r: Result<Vec<PageIndexElem>, LtxError>)
    requires
        b@.len() > 0,
        b@[0] == 0,
        call_ensures(decode_page_index, (b,), r),
    ensures
        r matches Ok(es) && es@.len() == 0,
{
    lemma_varint_round_trip(0, b@.skip(1));
    assert(uvarint(0) + b@.skip(1) =~= b@);
}

/// The index of a file stands before its last 24 bytes, as long as the first eight of them
/// say; a file that cannot hold it is too short.
pub proof fn lemma_index_is_found(
    b: &[u8],
    part: &[u8],
    r: Result<Vec<PageIndexElem>, LtxError>,
    of_part: Result<Vec<PageIndexElem>, LtxError>,
)
    requires
        call_ensures(page_index, (b,), r),
        call_ensures(decode_page_index, (part,), of_part),
    ensures
        b@.len() < 124 ==> r == Err::<Vec<PageIndexElem>, LtxError>(
            LtxError::ShortBuffer { need: 124, got: b@.len() as usize },
        ),
        b@.len() >= 124 && word64(b@, b@.len() - 24) > b@.len() - 24 ==> (r matches Err(
            LtxError::ShortBuffer { need, got },
        ) && (got == b@.len() as usize && (need == word64(b@, b@.len() - 24) + 24 || (need == usize::MAX
            && word64(b@, b@.len() - 24) + 24 > usize::MAX)))),
        b@.len() >= 124 && word64(b@, b@.len() - 24) <= b@.len() - 24 && part@ == b@.subrange(
            b@.len() - 24 - word64(b@, b@.len() - 24),
            b@.len() - 24,
        ) ==> (match (r, of_part) {
            (Ok(es), Ok(ps)) => es@ == ps@,
            (Err(e), Err(pe)) => e == pe,
            _ => false,
        }),
{
    reveal(page_index_of);
    if b@.len() >= 124 {
        lemma_word64(b@, b@.len() - 24);
    }
}

proof fn lemma_word32_bytes(a: Seq<u8>, b: Seq<u8>)
    requires
        a.len() == 4,
        b.len() == 4,
        word32(a, 0) == word32(b, 0),
    ensures
        a == b,
{
    let (a0, a1, a2, a3) = (a[0], a[1], a[2], a[3]);
    let (b0, b1, b2, b3) = (b[0], b[1], b[2], b[3]);
    assert(a0 == b0 && a1 == b1 && a2 == b2 && a3 == b3);
    assert(a =~= b);
}

/// The checksum of a page takes in its number and all its bytes, and is never unset.
pub proof fn lemma_page_checksum(pgno: u32, data: &[u8], c: Checksum, fed: Seq<u8>)
    requires
        call_ensures(checksum_page, (pgno, data), c),
        fed.len() == 4 + data@.len(),
        word32(fed, 0) == pgno,
        fed.skip(4) == data@,
    ensures
        c.0 == flagged_crc64(fed),
        c.0 >= CHECKSUM_FLAG,
{
    lemma_word32(fed, 0);
    lemma_pow256_values();
    lemma_be_round_trip(pgno as nat, 4);
    let n = be_bytes(pgno as nat, 4);
    lemma_word32(n, 0);
    assert(n.subrange(0, 4) =~= n);
    lemma_word32_bytes(fed.subrange(0, 4), n);
    assert(fed =~= n + data@);
    let x = c.0;
    assert(x & 0x8000_0000_0000_0000u64 != 0 ==> x >= 0x8000_0000_0000_0000u64) by (bit_vector);
}

/// Folding in a page checksum is exclusive or, with the flag kept.
pub proof fn lemma_fold(a: Checksum, page: Checksum, r: Checksum)
    requires
        call_ensures(Checksum::fold, (a, page), r),
    ensures
        r.0 >= CHECKSUM_FLAG,
        r.0 % CHECKSUM_FLAG == (a.0 ^ page.0) % CHECKSUM_FLAG,
{
    let x = a.0 ^ page.0;
    let y = r.0;
    assert(y >= 0x8000_0000_0000_0000u64 && y % 0x8000_0000_0000_0000u64
        == x % 0x8000_0000_0000_0000u64) by (bit_vector)
        requires
            y == 0x8000_0000_0000_0000u64 | x,
    ;
}

/// The checksum of what a hasher was fed is its CRC with the flag set; hashers that were fed
/// the same agree, in however many pieces it came.
pub proof fn lemma_hashers_agree(
    h: &mut Hasher,
    data: &[u8],
    g: Hasher,
    sum: u64,
    c: Checksum,
    other: u64,
)
    requires
        call_ensures(Hasher::update, (h, data), ()),
        g@ == old(h)@ + data@,
        call_ensures(Hasher::sum64, (final(h),), sum),
        call_ensures(Hasher::checksum, (final(h),), c),
        call_ensures(Hasher::sum64, (&g,), other),
    ensures
        final(h)@ == old(h)@ + data@,
        sum == other,
        c.0 == CHECKSUM_FLAG | sum,
{
}

/// A checksum is shown as sixteen digits that spell it.
pub proof fn lemma_checksum_is_shown(c: Checksum, s: String)
    requires
        call_ensures(Checksum::to_hex, (&c,), s),
    ensures
        s@.len() == 16,
        digits_value(s@) == Some(c.0 as nat),
{
    lemma_hex_fixed_len(c.0 as nat, 16);
    assert(pow16(16) == 0x1_0000_0000_0000_0000) by {
        reveal_with_fuel(pow16, 17);
    }
    lemma_hex_round_trip(c.0 as nat, 16);
}

/// A checksum is unset where it is zero.
pub proof fn lemma_unset_checksum(c: Checksum, zero: Checksum, r: bool)
    requires
        call_ensures(Checksum::zero, (), zero),
        call_ensures(Checksum::is_zero, (&c,), r),
    ensures
        r <==> c == zero,
        zero.0 == 0,
{
}

/// The index of a file starts as far before its last 24 bytes as the first eight of them
/// say.
pub proof fn lemma_index_starts(b: &[u8], r: Result<usize, LtxError>)
    requires
        call_ensures(find_index, (b,), r),
    ensures
        r is Ok <==> b@.len() >= 124 && word64(b@, b@.len() - 24) <= b@.len() - 24,
        r matches Ok(at) ==> at + word64(b@, b@.len() - 24) + 24 == b@.len(),
{
    if b@.len() >= 124 {
        lemma_word64(b@, b@.len() - 24);
    }
}

/// Numbers are read most significant byte first.
pub proof fn lemma_numbers_are_read(b: &[u8], off: usize, x: u16, y: u32, z: u64)
    requires
        off + 8 <= b@.len(),
        call_ensures(be_u16, (b, off), x),
        call_ensures(be_u32, (b, off), y),
        call_ensures(be_u64, (b, off), z),
    ensures
        x == word16(b@, off as int),
        y == word32(b@, off as int),
        z == word64(b@, off as int),
{
    lemma_word16(b@, off as int);
    lemma_word32(b@, off as int);
    lemma_word64(b@, off as int);
}

/// A signed number and its bit pattern are the same modulo two to the power 64.
pub proof fn lemma_bit_patterns(v: i64, u: u64, w: u64, x: i64)
    requires
        call_ensures(i64_to_bits, (v,), u),
        call_ensures(i64_from_bits, (w,), x),
    ensures
        u == v || u == v + 0x1_0000_0000_0000_0000,
        x == w || x == w - 0x1_0000_0000_0000_0000,
{
}

} // verus!
