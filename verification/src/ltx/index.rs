//! The page index of an LTX file: variable-length integers, and the table of
//! page frames they spell.

use crate::ltx::error::LtxError;
use crate::ltx::format::HEADER_SIZE;
use crate::wire::{be_u64, be_value};
use vstd::prelude::*;
use vstd::slice::slice_subrange;

verus! {

/// Bytes after the index: its length (`u64`), then the trailer.
pub const INDEX_FOOTER_SIZE: u64 = 24;

/// The longest variable-length integer, in bytes. The tenth holds the highest of 64
/// bits alone.
pub const MAX_VARINT_LEN: usize = 10;

/// `v` in base 128, least significant digit first, every byte but the last
/// marked by its high bit.
pub open spec fn uvarint(v: nat) -> Seq<u8>
    decreases v,
{
    if v < 128 {
        seq![v as u8]
    } else {
        seq![(v % 128 + 128) as u8] + uvarint(v / 128)
    }
}

/// The number spelled in `b` from digit `i` on, and the position after it. A number
/// of more than 64 bits overflows.
pub open spec fn varint_from(b: Seq<u8>, i: nat) -> Result<(nat, nat), LtxError>
    decreases b.len() - i,
{
    if i >= b.len() {
        Err(LtxError::ShortBuffer { need: (i + 1) as usize, got: b.len() as usize })
    } else if i >= MAX_VARINT_LEN {
        Err(LtxError::VarintOverflow)
    } else if i == MAX_VARINT_LEN - 1 && 1 < b[i as int] < 128 {
        Err(LtxError::VarintOverflow)
    } else if b[i as int] < 128 {
        Ok((b[i as int] as nat, i + 1))
    } else {
        match varint_from(b, i + 1) {
            Ok((v, n)) => Ok(((b[i as int] - 128) as nat + 128 * v, n)),
            Err(e) => Err(e),
        }
    }
}

/// What reading a variable-length integer from the front of `b` gives: the number,
/// and how many bytes it took.
#[verifier::opaque]
pub open spec fn varint(b: Seq<u8>) -> Result<(u64, nat), LtxError> {
    match varint_from(b, 0) {
        Ok((v, n)) => Ok((v as u64, n)),
        Err(e) => Err(e),
    }
}

/// `128` to the power `n`.
spec fn pow128(n: nat) -> nat
    decreases n,
{
    if n == 0 {
        1
    } else {
        128 * pow128((n - 1) as nat)
    }
}

/// What can be spelled from digit `i` on is below this.
spec fn digit_room(i: nat) -> nat {
    2 * pow128((MAX_VARINT_LEN - 1 - i) as nat)
}

proof fn lemma_digit_room(i: nat)
    requires
        i < MAX_VARINT_LEN,
    ensures
        digit_room(0) == 0x1_0000_0000_0000_0000,
        2 <= digit_room(i) <= 0x1_0000_0000_0000_0000,
        i + 1 < MAX_VARINT_LEN ==> digit_room(i) == 128 * digit_room(i + 1),
        i == MAX_VARINT_LEN - 1 ==> digit_room(i) == 2,
    decreases MAX_VARINT_LEN - i,
{
    reveal_with_fuel(pow128, 10);
    if i + 1 < MAX_VARINT_LEN {
        lemma_digit_room(i + 1);
    }
}

proof fn lemma_varint_shape(b: Seq<u8>, i: nat)
    ensures
        varint_from(b, i) matches Ok((v, n)) ==> i < n <= b.len() && n <= MAX_VARINT_LEN && v
            < digit_room(i),
    decreases b.len() - i,
{
    if i < b.len() && i < MAX_VARINT_LEN {
        lemma_digit_room(i);
        if i + 1 < MAX_VARINT_LEN {
            lemma_digit_room(i + 1);
        }
        if b[i as int] >= 128 {
            lemma_varint_shape(b, i + 1);
        }
    }
}

/// What can be read from the front of `b` is a 64-bit number.
pub proof fn lemma_varint_fits(b: Seq<u8>)
    ensures
        varint_from(b, 0) matches Ok((v, n)) ==> v <= u64::MAX,
{
    lemma_varint_shape(b, 0);
    lemma_digit_room(0);
}

pub proof fn lemma_uvarint_len(v: nat)
    ensures
        uvarint(v).len() >= 1,
    decreases v,
{
    if v >= 128 {
        lemma_uvarint_len(v / 128);
    }
}

proof fn lemma_uvarint_short(v: nat, n: nat)
    requires
        v < pow128(n),
        n >= 1,
    ensures
        1 <= uvarint(v).len() <= n,
    decreases v,
{
    lemma_uvarint_len(v);
    if v >= 128 {
        if n == 1 {
            assert(pow128(1) == 128) by {
                reveal_with_fuel(pow128, 2);
            }
        }
        assert(v / 128 < pow128((n - 1) as nat));
        lemma_uvarint_short(v / 128, (n - 1) as nat);
    }
}

/// A 64-bit number takes at most ten bytes.
pub proof fn lemma_uvarint_at_most_ten(v: nat)
    requires
        v <= u64::MAX,
    ensures
        1 <= uvarint(v).len() <= 10,
{
    assert(v < pow128(10)) by {
        reveal_with_fuel(pow128, 11);
    }
    lemma_uvarint_short(v, 10);
}

proof fn lemma_varint_from_round_trip(v: nat, before: Seq<u8>, after: Seq<u8>)
    requires
        before.len() < MAX_VARINT_LEN,
        v < digit_room(before.len()),
    ensures
        varint_from(before + uvarint(v) + after, before.len()) == Ok::<(nat, nat), LtxError>(
            (v, before.len() + uvarint(v).len()),
        ),
    decreases v,
{
    lemma_uvarint_len(v);
    lemma_digit_room(before.len());
    let b = before + uvarint(v) + after;
    if v >= 128 {
        let d = (v % 128 + 128) as u8;
        let before2 = before.push(d);
        assert(b =~= before2 + uvarint(v / 128) + after);
        assert(b[before.len() as int] == d);
        lemma_uvarint_len(v / 128);
        lemma_varint_from_round_trip(v / 128, before2, after);
    } else {
        assert(b[before.len() as int] == v as u8);
    }
}

/// A 64-bit number is read back from its variable-length form, whatever follows.
pub proof fn lemma_varint_round_trip(v: u64, after: Seq<u8>)
    ensures
        varint(uvarint(v as nat) + after) == Ok::<(u64, nat), LtxError>(
            (v, uvarint(v as nat).len()),
        ),
        1 <= uvarint(v as nat).len() <= MAX_VARINT_LEN,
{
    reveal(varint);
    lemma_digit_room(0);
    lemma_uvarint_at_most_ten(v as nat);
    lemma_varint_from_round_trip(v as nat, Seq::empty(), after);
    assert(Seq::<u8>::empty() + uvarint(v as nat) + after =~= uvarint(v as nat) + after);
}

/// Appends `v` as an unsigned variable-length integer (LEB128).
pub fn append_uvarint(buf: &mut Vec<u8>, v: u64)
    ensures
        final(buf)@ == old(buf)@ + uvarint(v as nat),
    decreases v,
{
    if v >= 0x80 {
        buf.push((v % 128) as u8 + 128);
        append_uvarint(buf, v / 128);
    } else {
        buf.push(v as u8);
    }
    assert(buf@ =~= old(buf)@ + uvarint(v as nat));
}

fn read_varint_from(b: &[u8], pos: usize, i: usize) -> (r: Result<(u64, usize), LtxError>)
    requires
        pos + i <= b@.len(),
        i <= MAX_VARINT_LEN,
    ensures
        match (r, varint_from(b@.skip(pos as int), i as nat)) {
            (Ok((v, n)), Ok((sv, sn))) => v == sv && n == sn,
            (Err(e), Err(se)) => e == se,
            _ => false,
        },
        r matches Ok((v, n)) ==> pos + n <= usize::MAX,
    decreases MAX_VARINT_LEN - i,
{
    let len: usize = b.len();
    let ghost s = b@.skip(pos as int);
    proof {
        lemma_varint_shape(s, i as nat);
    }
    if i >= len - pos {
        return Err(LtxError::ShortBuffer { need: i + 1, got: len - pos });
    }
    if i >= MAX_VARINT_LEN {
        return Err(LtxError::VarintOverflow);
    }
    let byte = b[pos + i];
    assert(byte == s[i as int]);
    proof {
        lemma_digit_room(i as nat);
    }
    if i == MAX_VARINT_LEN - 1 && 1 < byte && byte < 128 {
        return Err(LtxError::VarintOverflow);
    }
    if byte < 128 {
        return Ok((byte as u64, i + 1));
    }
    match read_varint_from(b, pos, i + 1) {
        Ok((v, n)) => Ok((128 * v + (byte - 128) as u64, n)),
        Err(e) => Err(e),
    }
}

/// Reads an unsigned variable-length integer from `b` at `pos`. Returns it and the
/// position after it.
fn read_uvarint(b: &[u8], pos: usize) -> (r: Result<(u64, usize), LtxError>)
    requires
        pos <= b@.len(),
    ensures
        match (r, varint(b@.skip(pos as int))) {
            (Ok((v, next)), Ok((sv, sn))) => v == sv && next == pos + sn && pos < next <= b@.len(),
            (Err(e), Err(se)) => e == se,
            _ => false,
        },
{
    proof {
        reveal(varint);
        lemma_varint_shape(b@.skip(pos as int), 0);
    }
    match read_varint_from(b, pos, 0) {
        Ok((v, n)) => Ok((v, pos + n)),
        Err(e) => Err(e),
    }
}

/// An entry in the page index: where a page's frame lives in the file.
#[derive(Clone, Copy, Debug, PartialEq, Eq, Structural)]
pub struct PageIndexElem {
    pub pgno: u32,
    pub offset: u64,
    pub size: u64,
}

/// The bytes of one index entry.
pub open spec fn entry_bytes(e: PageIndexElem) -> Seq<u8> {
    uvarint(e.pgno as nat) + uvarint(e.offset as nat) + uvarint(e.size as nat)
}

/// The bytes of an index: its entries, then the end marker.
pub open spec fn index_bytes(es: Seq<PageIndexElem>) -> Seq<u8>
    decreases es.len(),
{
    if es.len() == 0 {
        uvarint(0)
    } else {
        entry_bytes(es.first()) + index_bytes(es.drop_first())
    }
}

/// What parsing an index from the front of `b` gives: entries up to the end
/// marker.
pub open spec fn index_of(b: Seq<u8>) -> Result<Seq<PageIndexElem>, LtxError>
    decreases b.len(),
{
    match varint(b) {
        Err(e) => Err(e),
        Ok((pgno, n1)) => if pgno == 0 {
            Ok(Seq::empty())
        } else {
            match varint(b.skip(n1 as int)) {
                Err(e) => Err(e),
                Ok((offset, n2)) => match varint(b.skip((n1 + n2) as int)) {
                    Err(e) => Err(e),
                    Ok((size, n3)) => {
                        let rest = b.skip((n1 + n2 + n3) as int);
                        let elem = PageIndexElem {
                            pgno: (pgno % 0x1_0000_0000) as u32,
                            offset,
                            size,
                        };
                        if rest.len() < b.len() {
                            match index_of(rest) {
                                Err(e) => Err(e),
                                Ok(es) => Ok(seq![elem] + es),
                            }
                        } else {
                            arbitrary()
                        }
                    },
                },
            }
        },
    }
}

proof fn lemma_index_step(b: Seq<u8>, e: PageIndexElem, n1: nat, n2: nat, n3: nat)
    requires
        varint(b) == Ok::<(u64, nat), LtxError>((e.pgno as u64, n1)),
        varint(b.skip(n1 as int)) == Ok::<(u64, nat), LtxError>((e.offset, n2)),
        varint(b.skip((n1 + n2) as int)) == Ok::<(u64, nat), LtxError>((e.size, n3)),
        e.pgno > 0,
        0 < n1 + n2 + n3 <= b.len(),
    ensures
        index_of(b) == prepend(seq![e], index_of(b.skip((n1 + n2 + n3) as int))),
{
}

/// An index whose page numbers are positive is parsed back from its bytes,
/// whatever follows them.
pub proof fn lemma_index_round_trip(es: Seq<PageIndexElem>, after: Seq<u8>)
    requires
        forall|i: int| 0 <= i < es.len() ==> (#[trigger] es[i]).pgno > 0,
    ensures
        index_of(index_bytes(es) + after) == Ok::<Seq<PageIndexElem>, LtxError>(es),
    decreases es.len(),
{
    let b = index_bytes(es) + after;
    if es.len() == 0 {
        lemma_varint_round_trip(0, after);
        assert(es =~= Seq::empty());
    } else {
        let e = es.first();
        let tail = index_bytes(es.drop_first()) + after;
        let p = uvarint(e.pgno as nat);
        let o = uvarint(e.offset as nat);
        let s = uvarint(e.size as nat);
        lemma_concat_skips(p, o, s, tail);
        assert(b =~= p + (o + (s + tail)));
        lemma_varint_round_trip(e.pgno as u64, o + (s + tail));
        lemma_varint_round_trip(e.offset, s + tail);
        lemma_varint_round_trip(e.size, tail);
        lemma_index_step(b, e, p.len(), o.len(), s.len());
        assert forall|i: int| 0 <= i < es.drop_first().len() implies (#[trigger] es.drop_first()[i]).pgno
            > 0 by {
            assert(es.drop_first()[i] == es[i + 1]);
        }
        lemma_index_round_trip(es.drop_first(), after);
        assert(seq![e] + es.drop_first() =~= es);
    }
}

proof fn lemma_concat_skips(p: Seq<u8>, o: Seq<u8>, s: Seq<u8>, tail: Seq<u8>)
    ensures
        (p + (o + (s + tail))).skip(p.len() as int) == o + (s + tail),
        (p + (o + (s + tail))).skip((p.len() + o.len()) as int) == s + tail,
        (p + (o + (s + tail))).skip((p.len() + o.len() + s.len()) as int) == tail,
{
    let b = p + (o + (s + tail));
    assert(b.skip(p.len() as int) =~= o + (s + tail));
    assert(b.skip((p.len() + o.len()) as int) =~= s + tail);
    assert(b.skip((p.len() + o.len() + s.len()) as int) =~= tail);
}

/// An index has no more entries than it has bytes.
pub proof fn lemma_index_len(b: Seq<u8>)
    ensures
        index_of(b) matches Ok(es) ==> es.len() <= b.len(),
    decreases b.len(),
{
    reveal(varint);
    lemma_varint_shape(b, 0);
    if let Ok((pgno, n1)) = varint(b) {
        if pgno != 0 {
            lemma_varint_shape(b.skip(n1 as int), 0);
            if let Ok((_, n2)) = varint(b.skip(n1 as int)) {
                lemma_varint_shape(b.skip((n1 + n2) as int), 0);
                if let Ok((_, n3)) = varint(b.skip((n1 + n2) as int)) {
                    lemma_index_len(b.skip((n1 + n2 + n3) as int));
                }
            }
        }
    }
}

spec fn prepend(out: Seq<PageIndexElem>, r: Result<Seq<PageIndexElem>, LtxError>) -> Result<
    Seq<PageIndexElem>,
    LtxError,
> {
    match r {
        Ok(es) => Ok(out + es),
        Err(e) => Err(e),
    }
}

/// Parses the page index: `varint(pgno, offset, size)...` up to a `varint(0)`
/// end marker. A page number keeps its low 32 bits.
pub fn decode_page_index(b: &[u8]) -> (r: Result<Vec<PageIndexElem>, LtxError>)
    ensures
        match (r, index_of(b@)) {
            (Ok(es), Ok(s)) => es@ == s,
            (Err(e), Err(se)) => e == se,
            _ => false,
        },
{
    let mut out: Vec<PageIndexElem> = Vec::new();
    let mut pos: usize = 0;
    let len: usize = b.len();
    assert(b@.skip(0) =~= b@);
    proof {
        if let Ok(es) = index_of(b@) {
            assert(Seq::<PageIndexElem>::empty() + es =~= es);
        }
    }
    loop
        invariant
            len == b@.len(),
            pos <= len,
            index_of(b@) == prepend(out@, index_of(b@.skip(pos as int))),
        decreases len - pos,
    {
        let ghost rest = b@.skip(pos as int);
        let (pgno, p1) = match read_uvarint(b, pos) {
            Ok(x) => x,
            Err(e) => return Err(e),
        };
        if pgno == 0 {
            assert(out@ + Seq::<PageIndexElem>::empty() =~= out@);
            return Ok(out);
        }
        assert(b@.skip(p1 as int) =~= rest.skip(p1 - pos));
        let (offset, p2) = match read_uvarint(b, p1) {
            Ok(x) => x,
            Err(e) => return Err(e),
        };
        assert(b@.skip(p2 as int) =~= rest.skip(p2 - pos));
        let (size, p3) = match read_uvarint(b, p2) {
            Ok(x) => x,
            Err(e) => return Err(e),
        };
        assert(b@.skip(p3 as int) =~= rest.skip(p3 - pos));
        let elem = PageIndexElem { pgno: (pgno % 0x1_0000_0000) as u32, offset, size };
        proof {
            if let Ok(es) = index_of(b@.skip(p3 as int)) {
                assert(out@ + (seq![elem] + es) =~= out@.push(elem) + es);
            }
        }
        out.push(elem);
        pos = p3;
    }
}

/// Where the index of the file `b` starts, if `b` is long enough to hold the
/// index length that its footer states.
pub open spec fn index_start(b: Seq<u8>) -> Result<int, LtxError> {
    let footer = INDEX_FOOTER_SIZE as int;
    if b.len() < HEADER_SIZE + footer {
        Err(
            LtxError::ShortBuffer {
                need: (HEADER_SIZE + footer) as usize,
                got: b.len() as usize,
            },
        )
    } else {
        let at = b.len() - footer;
        let n = be_value(b.subrange(at, at + 8));
        if n > at {
            Err(
                LtxError::ShortBuffer {
                    need: if n + footer > usize::MAX { usize::MAX } else { (n + footer) as usize },
                    got: b.len() as usize,
                },
            )
        } else {
            Ok(at - n)
        }
    }
}

/// What reading the page index of the file `b` gives.
#[verifier::opaque]
pub open spec fn page_index_of(b: Seq<u8>) -> Result<Seq<PageIndexElem>, LtxError> {
    match index_start(b) {
        Err(e) => Err(e),
        Ok(start) => index_of(b.subrange(start, b.len() - INDEX_FOOTER_SIZE as int)),
    }
}

/// Finds where the index of the file `b` starts.
pub fn find_index(b: &[u8]) -> (r: Result<usize, LtxError>)
    ensures
        match (r, index_start(b@)) {
            (Ok(a), Ok(s)) => a == s && a + INDEX_FOOTER_SIZE <= b@.len(),
            (Err(e), Err(se)) => e == se,
            _ => false,
        },
{
    let footer: usize = INDEX_FOOTER_SIZE as usize;
    let len: usize = b.len();
    if len < HEADER_SIZE + footer {
        return Err(LtxError::ShortBuffer { need: HEADER_SIZE + footer, got: len });
    }
    let at: usize = len - footer;
    let n = be_u64(b, at);
    if n > at as u64 {
        let need: usize = if n > (usize::MAX - footer) as u64 {
            usize::MAX
        } else {
            n as usize + footer
        };
        return Err(LtxError::ShortBuffer { need, got: len });
    }
    Ok(at - n as usize)
}

/// Reads the page index of a whole LTX file.
pub fn page_index(b: &[u8]) -> (r: Result<Vec<PageIndexElem>, LtxError>)
    ensures
        match (r, page_index_of(b@)) {
            (Ok(es), Ok(s)) => es@ == s,
            (Err(e), Err(se)) => e == se,
            _ => false,
        },
{
    proof {
        reveal(page_index_of);
    }
    match find_index(b) {
        Err(e) => Err(e),
        Ok(start) => decode_page_index(
            slice_subrange(b, start, b.len() - INDEX_FOOTER_SIZE as usize),
        ),
    }
}

} // verus!
