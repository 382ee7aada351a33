//! Big-endian integers, and the bit patterns of signed ones.

use vstd::prelude::*;

verus! {

/// The number that `s` spells in base 256, most significant byte first.
pub open spec fn be_value(s: Seq<u8>) -> nat
    decreases s.len(),
{
    if s.len() == 0 {
        0
    } else {
        be_value(s.drop_last()) * 256 + s.last() as nat
    }
}

/// The last `n` base-256 digits of `v`, most significant first.
pub open spec fn be_bytes(v: nat, n: nat) -> Seq<u8>
    decreases n,
{
    if n == 0 {
        Seq::empty()
    } else {
        be_bytes(v / 256, (n - 1) as nat).push((v % 256) as u8)
    }
}

/// `256` to the power `n`.
pub open spec fn pow256(n: nat) -> nat
    decreases n,
{
    if n == 0 {
        1
    } else {
        256 * pow256((n - 1) as nat)
    }
}

/// The two's complement bit pattern of `v`, read as an unsigned number.
pub open spec fn i64_bits(v: i64) -> u64 {
    if v >= 0 {
        v as u64
    } else {
        (v + 0x1_0000_0000_0000_0000) as u64
    }
}

/// The signed number with bit pattern `u`.
pub open spec fn bits_i64(u: u64) -> i64 {
    if u < 0x8000_0000_0000_0000 {
        u as i64
    } else {
        (u - 0x1_0000_0000_0000_0000) as i64
    }
}

/// Reading a signed number back from its bit pattern gives that number.
pub proof fn lemma_bits_round_trip(v: i64)
    ensures
        bits_i64(i64_bits(v)) == v,
{
}

pub proof fn lemma_be_bytes_len(v: nat, n: nat)
    ensures
        be_bytes(v, n).len() == n,
    decreases n,
{
    if n > 0 {
        lemma_be_bytes_len(v / 256, (n - 1) as nat);
    }
}

pub proof fn lemma_be_value_bound(s: Seq<u8>)
    ensures
        be_value(s) < pow256(s.len()),
    decreases s.len(),
{
    if s.len() > 0 {
        lemma_be_value_bound(s.drop_last());
    }
}

/// A number that fits in `n` bytes is recovered from its big-endian bytes.
pub proof fn lemma_be_round_trip(v: nat, n: nat)
    requires
        v < pow256(n),
    ensures
        be_bytes(v, n).len() == n,
        be_value(be_bytes(v, n)) == v,
    decreases n,
{
    lemma_be_bytes_len(v, n);
    if n > 0 {
        lemma_be_round_trip(v / 256, (n - 1) as nat);
        assert(be_bytes(v, n).drop_last() =~= be_bytes(v / 256, (n - 1) as nat));
    }
}

pub proof fn lemma_pow256_values()
    ensures
        pow256(1) == 0x100,
        pow256(2) == 0x1_0000,
        pow256(3) == 0x100_0000,
        pow256(4) == 0x1_0000_0000,
        pow256(5) == 0x100_0000_0000,
        pow256(6) == 0x1_0000_0000_0000,
        pow256(7) == 0x100_0000_0000_0000,
        pow256(8) == 0x1_0000_0000_0000_0000,
{
    reveal_with_fuel(pow256, 9);
}

/// The most significant of four bytes comes first.
pub proof fn lemma_digits(b: Seq<u8>)
    requires
        b.len() == 4,
    ensures
        be_value(b) == b[0] * 0x100_0000 + b[1] * 0x1_0000 + b[2] * 0x100 + b[3],
{
    reveal_with_fuel(be_value, 5);
    assert(b.drop_last() =~= seq![b[0], b[1], b[2]]);
    assert(b.drop_last().drop_last() =~= seq![b[0], b[1]]);
    assert(b.drop_last().drop_last().drop_last() =~= seq![b[0]]);
    assert(b.drop_last().drop_last().drop_last().drop_last() =~= Seq::<u8>::empty());
}

/// The bytes of a number spell it most significant byte first: byte `i` of `n` is the
/// digit that counts `256` to the power `n - 1 - i`.
pub proof fn lemma_byte_weights(v: nat, n: nat, i: int)
    requires
        0 <= i < n,
    ensures
        be_bytes(v, n).len() == n,
        be_bytes(v, n)[i] == (v / pow256((n - 1 - i) as nat)) % 256,
    decreases n,
{
    lemma_be_bytes_len(v, n);
    lemma_be_bytes_len(v / 256, (n - 1) as nat);
    let front = be_bytes(v / 256, (n - 1) as nat);
    assert(be_bytes(v, n) == front.push((v % 256) as u8));
    if i < n - 1 {
        assert(be_bytes(v, n)[i] == front[i]);
        lemma_byte_weights(v / 256, (n - 1) as nat, i);
        let d = pow256((n - 2 - i) as nat) as int;
        assert(d > 0) by {
            lemma_pow256_positive((n - 2 - i) as nat);
        }
        assert(pow256((n - 1 - i) as nat) == 256 * d);
        vstd::arithmetic::div_mod::lemma_div_denominator(v as int, 256, d);
    } else {
        assert(pow256(0) == 1);
        assert(v / 1 == v);
        assert(be_bytes(v, n)[i] == (v % 256) as u8);
    }
}

proof fn lemma_pow256_positive(n: nat)
    ensures
        pow256(n) > 0,
    decreases n,
{
    if n > 0 {
        lemma_pow256_positive((n - 1) as nat);
    }
}

/// Reads `n` bytes of `b` at `off` as a big-endian number.
pub fn be_uint(b: &[u8], off: usize, n: usize) -> (r: u64)
    requires
        n <= 8,
        off + n <= b@.len(),
    ensures
        r as nat == be_value(b@.subrange(off as int, off + n)),
        r < pow256(n as nat),
{
    let len: usize = b.len();
    let mut v: u64 = 0;
    let mut i: usize = 0;
    while i < n
        invariant
            i <= n <= 8,
            off + n <= len,
            len == b@.len(),
            v as nat == be_value(b@.subrange(off as int, off + i)),
            v < pow256(i as nat),
        decreases n - i,
    {
        proof {
            lemma_pow256_values();
            assert(b@.subrange(off as int, off + i + 1).drop_last() =~= b@.subrange(
                off as int,
                off + i,
            ));
            assert(pow256((i + 1) as nat) == 256 * pow256(i as nat));
            assert(pow256(i as nat) <= 0x100_0000_0000_0000) by {
                reveal_with_fuel(pow256, 9);
            }
        }
        v = v * 256 + b[off + i] as u64;
        i += 1;
    }
    v
}

pub fn be_u16(b: &[u8], off: usize) -> (r: u16)
    requires
        off + 2 <= b@.len(),
    ensures
        r as nat == be_value(b@.subrange(off as int, off + 2)),
{
    let v = be_uint(b, off, 2);
    proof {
        lemma_pow256_values();
    }
    v as u16
}

pub fn be_u32(b: &[u8], off: usize) -> (r: u32)
    requires
        off + 4 <= b@.len(),
    ensures
        r as nat == be_value(b@.subrange(off as int, off + 4)),
{
    let v = be_uint(b, off, 4);
    proof {
        lemma_pow256_values();
    }
    v as u32
}

pub fn be_u64(b: &[u8], off: usize) -> (r: u64)
    requires
        off + 8 <= b@.len(),
    ensures
        r as nat == be_value(b@.subrange(off as int, off + 8)),
{
    be_uint(b, off, 8)
}

/// Appends the last `n` bytes of `v`, big-endian.
pub fn push_be(out: &mut Vec<u8>, v: u64, n: usize)
    ensures
        final(out)@ == old(out)@ + be_bytes(v as nat, n as nat),
    decreases n,
{
    if n > 0 {
        push_be(out, v / 256, n - 1);
        out.push((v % 256) as u8);
    }
    assert(out@ =~= old(out)@ + be_bytes(v as nat, n as nat));
}

/// The bit pattern of a signed number.
pub fn i64_to_bits(v: i64) -> (r: u64)
    ensures
        r == i64_bits(v),
{
    assert(v < 0 ==> v as u64 == v + 0x1_0000_0000_0000_0000) by (bit_vector);
    v as u64
}

/// The signed number with the given bit pattern.
pub fn i64_from_bits(u: u64) -> (r: i64)
    ensures
        r == bits_i64(u),
{
    assert(u >= 0x8000_0000_0000_0000 ==> u as i64 == u - 0x1_0000_0000_0000_0000) by (bit_vector);
    u as i64
}

} // verus!
