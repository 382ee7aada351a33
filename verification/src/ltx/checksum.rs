//! CRC-64 with the reflected ISO 3309 polynomial, all-ones initial value and
//! all-ones final XOR, as Go's `hash/crc64` computes it with its ISO table.

use crate::text::{hex_fixed, push_hex};
use crate::wire::{be_bytes, push_be};
use vstd::prelude::*;

verus! {

/// High bit set in every LTX checksum, so that a valid checksum is never zero.
pub const CHECKSUM_FLAG: u64 = 0x8000_0000_0000_0000;

/// The reflected ISO 3309 polynomial.
pub const POLY_REFLECTED: u64 = 0xD800_0000_0000_0000;

/// The running CRC before any byte.
const CRC_INIT: u64 = 0xFFFF_FFFF_FFFF_FFFF;

/// One bit of polynomial division.
pub open spec fn crc_shift(crc: u64) -> u64 {
    if crc & 1 != 0 {
        (crc >> 1u64) ^ POLY_REFLECTED
    } else {
        crc >> 1u64
    }
}

/// `n` bits of polynomial division.
pub open spec fn crc_shifts(crc: u64, n: nat) -> u64
    decreases n,
{
    if n == 0 {
        crc
    } else {
        crc_shift(crc_shifts(crc, (n - 1) as nat))
    }
}

/// The running CRC after one more byte.
pub open spec fn crc_byte(crc: u64, b: u8) -> u64 {
    crc_shifts(crc ^ (b as u64), 8)
}

/// The running CRC after `data`.
pub open spec fn crc_bytes(crc: u64, data: Seq<u8>) -> u64
    decreases data.len(),
{
    if data.len() == 0 {
        crc
    } else {
        crc_byte(crc_bytes(crc, data.drop_last()), data.last())
    }
}

/// The CRC-64 of `data`.
pub open spec fn crc64(data: Seq<u8>) -> u64 {
    crc_bytes(0xFFFF_FFFF_FFFF_FFFF, data) ^ 0xFFFF_FFFF_FFFF_FFFF
}

/// The CRC-64 of `data` with [`CHECKSUM_FLAG`] set.
pub open spec fn flagged_crc64(data: Seq<u8>) -> u64 {
    CHECKSUM_FLAG | crc64(data)
}

/// Eight bits of polynomial division, written out.
spec fn crc_shift8(crc: u64) -> u64 {
    crc_shift(
        crc_shift(crc_shift(crc_shift(crc_shift(crc_shift(crc_shift(crc_shift(crc))))))),
    )
}

proof fn lemma_check_step(data: Seq<u8>, n: int, crc: u64, next: u64)
    requires
        0 <= n < data.len(),
        crc_bytes(0xFFFF_FFFF_FFFF_FFFF, data.take(n)) == crc,
        crc_shift8(crc ^ (data[n] as u64)) == next,
    ensures
        crc_bytes(0xFFFF_FFFF_FFFF_FFFF, data.take(n + 1)) == next,
{
    assert(data.take(n + 1).drop_last() =~= data.take(n));
    reveal_with_fuel(crc_shifts, 9);
}

/// The check value of the CRC: that of the digits from 1 to 9 as text.
pub proof fn lemma_check_value()
    ensures
        crc64(seq![49u8, 50u8, 51u8, 52u8, 53u8, 54u8, 55u8, 56u8, 57u8]) == 0xB909_56C7_75A4_1001,
{
    let data = seq![49u8, 50u8, 51u8, 52u8, 53u8, 54u8, 55u8, 56u8, 57u8];
    assert(data.take(0) =~= Seq::empty());
    assert(crc_shift8(0xFFFF_FFFF_FFFF_FFFFu64 ^ 49u64) == 0xBCDF_FFFF_FFFF_FFFFu64) by (bit_vector);
    lemma_check_step(data, 0, 0xFFFF_FFFF_FFFF_FFFF, 0xBCDF_FFFF_FFFF_FFFF);
    assert(crc_shift8(0xBCDF_FFFF_FFFF_FFFFu64 ^ 50u64) == 0xBE4C_DFFF_FFFF_FFFFu64) by (bit_vector);
    lemma_check_step(data, 1, 0xBCDF_FFFF_FFFF_FFFF, 0xBE4C_DFFF_FFFF_FFFF);
    assert(crc_shift8(0xBE4C_DFFF_FFFF_FFFFu64 ^ 51u64) == 0xBFFE_4CDF_FFFF_FFFFu64) by (bit_vector);
    lemma_check_step(data, 2, 0xBE4C_DFFF_FFFF_FFFF, 0xBFFE_4CDF_FFFF_FFFF);
    assert(crc_shift8(0xBFFE_4CDF_FFFF_FFFFu64 ^ 52u64) == 0xBBEF_FE4C_DFFF_FFFFu64) by (bit_vector);
    lemma_check_step(data, 3, 0xBFFE_4CDF_FFFF_FFFF, 0xBBEF_FE4C_DFFF_FFFF);
    assert(crc_shift8(0xBBEF_FE4C_DFFF_FFFFu64 ^ 53u64) == 0xBA5B_EFFE_4CDF_FFFFu64) by (bit_vector);
    lemma_check_step(data, 4, 0xBBEF_FE4C_DFFF_FFFF, 0xBA5B_EFFE_4CDF_FFFF);
    assert(crc_shift8(0xBA5B_EFFE_4CDF_FFFFu64 ^ 54u64) == 0xB88A_5BEF_FE4C_DFFFu64) by (bit_vector);
    lemma_check_step(data, 5, 0xBA5B_EFFE_4CDF_FFFF, 0xB88A_5BEF_FE4C_DFFF);
    assert(crc_shift8(0xB88A_5BEF_FE4C_DFFFu64 ^ 55u64) == 0xB938_8A5B_EFFE_4CDFu64) by (bit_vector);
    lemma_check_step(data, 6, 0xB88A_5BEF_FE4C_DFFF, 0xB938_8A5B_EFFE_4CDF);
    assert(crc_shift8(0xB938_8A5B_EFFE_4CDFu64 ^ 56u64) == 0x86A9_388A_5BEF_FE4Cu64) by (bit_vector);
    lemma_check_step(data, 7, 0xB938_8A5B_EFFE_4CDF, 0x86A9_388A_5BEF_FE4C);
    assert(crc_shift8(0x86A9_388A_5BEF_FE4Cu64 ^ 57u64) == 0x46F6_A938_8A5B_EFFEu64) by (bit_vector);
    lemma_check_step(data, 8, 0x86A9_388A_5BEF_FE4C, 0x46F6_A938_8A5B_EFFE);
    assert(data.take(9) =~= data);
    assert(0x46F6_A938_8A5B_EFFEu64 ^ 0xFFFF_FFFF_FFFF_FFFFu64 == 0xB909_56C7_75A4_1001u64) by (bit_vector);
}

/// Feeding two pieces one after the other is feeding their concatenation, so a
/// checksum does not depend on where the input was cut.
pub proof fn lemma_crc_concat(crc: u64, a: Seq<u8>, b: Seq<u8>)
    ensures
        crc_bytes(crc, a + b) == crc_bytes(crc_bytes(crc, a), b),
    decreases b.len(),
{
    if b.len() == 0 {
        assert(a + b =~= a);
    } else {
        lemma_crc_concat(crc, a, b.drop_last());
        assert((a + b).drop_last() =~= a + b.drop_last());
    }
}

proof fn lemma_shifts_linear(a: u64, b: u64, n: nat)
    ensures
        crc_shifts(a ^ b, n) == crc_shifts(a, n) ^ crc_shifts(b, n),
    decreases n,
{
    if n > 0 {
        lemma_shifts_linear(a, b, (n - 1) as nat);
        let x = crc_shifts(a, (n - 1) as nat);
        let y = crc_shifts(b, (n - 1) as nat);
        assert(crc_shift(x ^ y) == crc_shift(x) ^ crc_shift(y)) by (bit_vector);
    }
}

proof fn lemma_shifts_high(x: u64, n: nat)
    requires
        x & 0xff == 0,
        n <= 8,
    ensures
        crc_shifts(x, n) == x >> (n as u64),
    decreases n,
{
    if n == 0 {
        assert(x >> 0u64 == x) by (bit_vector);
    } else {
        lemma_shifts_high(x, (n - 1) as nat);
        let m = (n - 1) as u64;
        assert((x >> m) & 1 == 0 && (x >> m) >> 1u64 == x >> ((m + 1) as u64)) by (bit_vector)
            requires
                x & 0xff == 0,
                m < 8,
        ;
    }
}

/// Eight bits of division split into a table lookup on the low byte and a shift
/// of the rest.
proof fn lemma_table_step(x: u64)
    ensures
        crc_shifts(x, 8) == crc_shifts(x & 0xff, 8) ^ (x >> 8u64),
{
    let lo = x & 0xff;
    let hi = x & !0xffu64;
    assert(lo ^ hi == x && hi & 0xff == 0 && hi >> 8u64 == x >> 8u64) by (bit_vector)
        requires
            lo == x & 0xff,
            hi == x & !0xffu64,
    ;
    lemma_shifts_linear(lo, hi, 8);
    lemma_shifts_high(hi, 8);
}

/// Setting the flag gives a non-zero number whatever the CRC was.
pub proof fn lemma_flag_never_zero(crc: u64)
    ensures
        (CHECKSUM_FLAG | crc) & CHECKSUM_FLAG == CHECKSUM_FLAG,
        CHECKSUM_FLAG | crc != 0,
{
    assert((0x8000_0000_0000_0000u64 | crc) & 0x8000_0000_0000_0000u64 == 0x8000_0000_0000_0000u64
        && 0x8000_0000_0000_0000u64 | crc != 0) by (bit_vector);
}

/// The lookup table: the eight-bit division of every byte value.
spec fn is_table(t: Seq<u64>) -> bool {
    &&& t.len() == 256
    &&& forall|i: int| 0 <= i < 256 ==> #[trigger] t[i] == crc_shifts(i as u64, 8)
}

fn build_table() -> (t: Vec<u64>)
    ensures
        is_table(t@),
{
    let mut table: Vec<u64> = Vec::new();
    let mut i: u64 = 0;
    while i < 256
        invariant
            i <= 256,
            table@.len() == i,
            forall|k: int| 0 <= k < i ==> #[trigger] table@[k] == crc_shifts(k as u64, 8),
        decreases 256 - i,
    {
        let mut crc: u64 = i;
        let mut j: usize = 0;
        while j < 8
            invariant
                j <= 8,
                crc == crc_shifts(i, j as nat),
            decreases 8 - j,
        {
            if crc & 1 != 0 {
                crc = (crc >> 1u64) ^ POLY_REFLECTED;
            } else {
                crc = crc >> 1u64;
            }
            j += 1;
        }
        table.push(crc);
        i += 1;
    }
    table
}

/// The running CRC together with what it was computed over.
struct Running {
    crc: u64,
    fed: Ghost<Seq<u8>>,
}

/// A rolling CRC-64 hasher.
pub struct Hasher {
    table: Vec<u64>,
    running: Running,
}

impl View for Hasher {
    type V = Seq<u8>;

    /// Everything that was fed so far.
    closed spec fn view(&self) -> Seq<u8> {
        self.running.fed@
    }
}

impl Default for Hasher {
    fn default() -> (h: Self)
        ensures
            h@ == Seq::<u8>::empty(),
    {
        Self::new()
    }
}

impl Clone for Hasher {
    fn clone(&self) -> (h: Self)
        ensures
            h@ == self@,
    {
        proof {
            use_type_invariant(self);
        }
        let table = self.table.clone();
        assert(table@ =~= self.table@);
        Hasher { table, running: Running { crc: self.running.crc, fed: Ghost(self.running.fed@) } }
    }
}

impl Hasher {
    #[verifier::type_invariant]
    spec fn well_formed(self) -> bool {
        &&& is_table(self.table@)
        &&& self.running.crc == crc_bytes(CRC_INIT, self.running.fed@)
    }

    pub fn new() -> (h: Self)
        ensures
            h@ == Seq::<u8>::empty(),
    {
        Self { table: build_table(), running: Running { crc: CRC_INIT, fed: Ghost(Seq::empty()) } }
    }

    /// Feeds `data` into the running checksum.
    pub fn update(&mut self, data: &[u8])
        ensures
            final(self)@ == old(self)@ + data@,
    {
        proof {
            use_type_invariant(&*self);
        }
        let ghost fed0 = self.running.fed@;
        let mut crc: u64 = self.running.crc;
        let mut i: usize = 0;
        while i < data.len()
            invariant
                i <= data@.len(),
                is_table(self.table@),
                crc == crc_bytes(crc_bytes(CRC_INIT, fed0), data@.subrange(0, i as int)),
            decreases data@.len() - i,
        {
            let b = data[i];
            let x: u64 = crc ^ (b as u64);
            let k: u64 = x & 0xff;
            proof {
                assert(k < 256 && x >> 8u64 == crc >> 8u64) by (bit_vector)
                    requires
                        x == crc ^ (b as u64),
                        k == x & 0xff,
                ;
                lemma_table_step(x);
                assert(data@.subrange(0, i + 1).drop_last() =~= data@.subrange(0, i as int));
                assert(self.table@[k as int] == crc_shifts(k as u64, 8));
            }
            crc = self.table[k as usize] ^ (crc >> 8u64);
            i += 1;
        }
        proof {
            assert(data@.subrange(0, i as int) =~= data@);
            lemma_crc_concat(CRC_INIT, fed0, data@);
        }
        self.running = Running { crc, fed: Ghost(fed0 + data@) };
    }

    /// The CRC-64 value, without [`CHECKSUM_FLAG`].
    pub fn sum64(&self) -> (r: u64)
        ensures
            r == crc64(self@),
    {
        proof {
            use_type_invariant(self);
        }
        self.running.crc ^ 0xFFFF_FFFF_FFFF_FFFF
    }

    /// The CRC-64 value with [`CHECKSUM_FLAG`] set, as stored in LTX files.
    pub fn checksum(&self) -> (c: Checksum)
        ensures
            c.0 == flagged_crc64(self@),
    {
        Checksum(CHECKSUM_FLAG | self.sum64())
    }
}

/// An LTX checksum: a CRC-64 value with [`CHECKSUM_FLAG`] set. Zero means unset.
#[derive(Clone, Copy, Debug, PartialEq, Eq, Structural, Hash)]
pub struct Checksum(pub u64);

impl Default for Checksum {
    fn default() -> (c: Self)
        ensures
            c == Checksum(0),
    {
        Checksum(0)
    }
}

impl Checksum {
    /// The unset checksum.
    pub fn zero() -> (c: Checksum)
        ensures
            c == Checksum(0),
    {
        Checksum(0)
    }

    pub fn is_zero(&self) -> (r: bool)
        ensures
            r == (self.0 == 0),
    {
        self.0 == 0
    }

    /// The checksum as sixteen lower-case hex digits.
    pub fn to_hex(&self) -> (s: String)
        ensures
            s@ == hex_fixed(self.0 as nat, 16),
    {
        let mut s = String::new();
        push_hex(&mut s, self.0, 16);
        assert(s@ =~= hex_fixed(self.0 as nat, 16));
        s
    }

    /// This rolling database checksum with one more page checksum folded in.
    pub fn fold(self, page: Checksum) -> (r: Checksum)
        ensures
            r.0 == fold_checksum(self.0, page.0),
    {
        Checksum(CHECKSUM_FLAG | (self.0 ^ page.0))
    }
}

/// What enters the checksum of a page: its number, big-endian, then its data.
pub open spec fn page_checksum(pgno: u32, data: Seq<u8>) -> u64 {
    flagged_crc64(be_bytes(pgno as nat, 4) + data)
}

/// A rolling database checksum after one more page checksum.
pub open spec fn fold_checksum(rolling: u64, page: u64) -> u64 {
    CHECKSUM_FLAG | (rolling ^ page)
}

/// The rolling database checksum does not depend on the order in which two
/// pages are folded in.
pub proof fn lemma_fold_commutes(rolling: u64, a: u64, b: u64)
    ensures
        fold_checksum(fold_checksum(rolling, a), b) == fold_checksum(fold_checksum(rolling, b), a),
{
    let f = 0x8000_0000_0000_0000u64;
    assert(f | ((f | (rolling ^ a)) ^ b) == f | ((f | (rolling ^ b)) ^ a)) by (bit_vector);
}

/// Folding a page out again restores the rolling checksum, so replacing one
/// page needs only its old and new checksums.
pub proof fn lemma_fold_cancels(rolling: u64, a: u64)
    requires
        rolling & CHECKSUM_FLAG == CHECKSUM_FLAG,
    ensures
        fold_checksum(fold_checksum(rolling, a), a) == rolling,
{
    let f = 0x8000_0000_0000_0000u64;
    assert(f | ((f | (rolling ^ a)) ^ a) == rolling) by (bit_vector)
        requires
            rolling & f == f,
    ;
}

/// The CRC-64 of one page: `crc(be(pgno) ‖ data)`, with [`CHECKSUM_FLAG`] set.
pub fn checksum_page(pgno: u32, data: &[u8]) -> (c: Checksum)
    ensures
        c.0 == page_checksum(pgno, data@),
        c.0 & CHECKSUM_FLAG != 0,
{
    let mut h = Hasher::new();
    let mut be: Vec<u8> = Vec::new();
    push_be(&mut be, pgno as u64, 4);
    h.update(&be);
    h.update(data);
    proof {
        assert(h@ =~= be_bytes(pgno as nat, 4) + data@);
        lemma_flag_never_zero(crc64(h@));
    }
    h.checksum()
}

} // verus!
