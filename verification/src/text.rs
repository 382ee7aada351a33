//! Numbers as text: fixed-width hex, decimal, and the parsers that read hex back.

use vstd::prelude::*;

verus! {

/// `String::push` appends one character.
pub assume_specification[ String::push ](s: &mut String, c: char)
    ensures
        final(s)@ == old(s)@.push(c),
;

/// `String::push_str` appends a string slice.
pub assume_specification[ String::push_str ](s: &mut String, t: &str)
    ensures
        final(s)@ == old(s)@ + t@,
;

/// The lower-case digit of value `d` (below sixteen).
pub open spec fn digit_char(d: nat) -> char {
    if d < 10 {
        (48 + d) as char
    } else {
        (87 + d) as char
    }
}

/// The last `n` hex digits of `v`.
pub open spec fn hex_fixed(v: nat, n: nat) -> Seq<char>
    decreases n,
{
    if n == 0 {
        Seq::empty()
    } else {
        hex_fixed(v / 16, (n - 1) as nat).push(digit_char(v % 16))
    }
}

/// `v` in decimal, without leading zeros.
pub open spec fn decimal(v: nat) -> Seq<char>
    decreases v,
{
    if v < 10 {
        seq![digit_char(v)]
    } else {
        decimal(v / 10).push(digit_char(v % 10))
    }
}

pub proof fn lemma_hex_fixed_len(v: nat, n: nat)
    ensures
        hex_fixed(v, n).len() == n,
    decreases n,
{
    if n > 0 {
        lemma_hex_fixed_len(v / 16, (n - 1) as nat);
    }
}

/// The digit character of a value below sixteen.
pub fn hex_digit(d: u8) -> (c: char)
    requires
        d < 16,
    ensures
        c == digit_char(d as nat),
{
    if d < 10 {
        (48 + d) as char
    } else {
        (87 + d) as char
    }
}

/// Appends the last `n` hex digits of `v`.
pub fn push_hex(s: &mut String, v: u64, n: usize)
    ensures
        final(s)@ == old(s)@ + hex_fixed(v as nat, n as nat),
    decreases n,
{
    if n > 0 {
        push_hex(s, v / 16, n - 1);
        s.push(hex_digit((v % 16) as u8));
    }
    assert(s@ =~= old(s)@ + hex_fixed(v as nat, n as nat));
}

/// Appends `v` in decimal.
pub fn push_decimal(s: &mut String, v: u64)
    ensures
        final(s)@ == old(s)@ + decimal(v as nat),
    decreases v,
{
    if v >= 10 {
        push_decimal(s, v / 10);
        s.push(hex_digit((v % 10) as u8));
    } else {
        s.push(hex_digit(v as u8));
    }
    assert(s@ =~= old(s)@ + decimal(v as nat));
}

/// `v` in hex, padded with zeros to at least `n` digits.
pub open spec fn hex_padded(v: nat, n: nat) -> Seq<char>
    decreases v + n,
{
    if v == 0 && n == 0 {
        Seq::empty()
    } else {
        hex_padded(v / 16, if n > 0 { (n - 1) as nat } else { 0 }).push(digit_char(v % 16))
    }
}

/// Appends `v` in hex, padded with zeros to at least `n` digits.
pub fn push_hex_padded(s: &mut String, v: u64, n: usize)
    ensures
        final(s)@ == old(s)@ + hex_padded(v as nat, n as nat),
    decreases v + n,
{
    if v > 0 || n > 0 {
        push_hex_padded(s, v / 16, if n > 0 { n - 1 } else { 0 });
        s.push(hex_digit((v % 16) as u8));
    }
    assert(s@ =~= old(s)@ + hex_padded(v as nat, n as nat));
}

/// The characters of a string.
pub fn chars_of(s: &str) -> (v: Vec<char>)
    ensures
        v@ == s@,
{
    broadcast use vstd::string::axiom_spec_iter;

    let mut v: Vec<char> = Vec::new();
    for c in it: s.chars()
        invariant
            it.seq() == s@,
            v@ == it.seq().take(it.index() as int),
    {
        v.push(c);
        assert(v@ =~= it.seq().take(it.index() + 1));
    }
    assert(s@.take(s@.len() as int) =~= s@);
    v
}

/// Appends characters to a string.
pub fn push_chars(s: &mut String, cs: &[char])
    ensures
        final(s)@ == old(s)@ + cs@,
{
    let mut i: usize = 0;
    while i < cs.len()
        invariant
            i <= cs@.len(),
            s@ =~= old(s)@ + cs@.take(i as int),
        decreases cs@.len() - i,
    {
        s.push(cs[i]);
        i += 1;
    }
    assert(cs@.take(i as int) =~= cs@);
}

/// The value of a hex digit, in either case.
pub open spec fn digit_value(c: char) -> Option<nat> {
    let n = c as nat;
    if 48 <= n <= 57 {
        Some((n - 48) as nat)
    } else if 97 <= n <= 102 {
        Some((n - 87) as nat)
    } else if 65 <= n <= 70 {
        Some((n - 55) as nat)
    } else {
        None
    }
}

/// The number that hex digits spell; the empty string spells 0.
pub open spec fn digits_value(s: Seq<char>) -> Option<nat>
    decreases s.len(),
{
    if s.len() == 0 {
        Some(0)
    } else {
        match (digits_value(s.drop_last()), digit_value(s.last())) {
            (Some(v), Some(d)) => Some(v * 16 + d),
            _ => None,
        }
    }
}

/// What reading `s` as an unsigned hex number up to `max` gives: one or more
/// digits in either case, after an optional plus sign.
pub open spec fn hex_number(s: Seq<char>, max: nat) -> Option<nat> {
    let t = if s.len() > 0 && s[0] == '+' {
        s.skip(1)
    } else {
        s
    };
    if t.len() == 0 {
        None
    } else {
        match digits_value(t) {
            Some(v) => if v <= max {
                Some(v)
            } else {
                None
            },
            None => None,
        }
    }
}

fn hex_digit_value(c: char) -> (r: Option<u64>)
    ensures
        match (r, digit_value(c)) {
            (Some(d), Some(s)) => d == s && d < 16,
            (None, None) => true,
            _ => false,
        },
{
    let n: u32 = c as u32;
    if 48 <= n && n <= 57 {
        Some((n - 48) as u64)
    } else if 97 <= n && n <= 102 {
        Some((n - 87) as u64)
    } else if 65 <= n && n <= 70 {
        Some((n - 55) as u64)
    } else {
        None
    }
}

proof fn lemma_digits_prefix(s: Seq<char>, i: int)
    requires
        0 <= i <= s.len(),
        digits_value(s) is Some,
    ensures
        digits_value(s.take(i)) is Some,
        digits_value(s.take(i))->0 <= digits_value(s)->0,
    decreases s.len(),
{
    if i < s.len() {
        lemma_digits_prefix(s.drop_last(), i);
        assert(s.drop_last().take(i) =~= s.take(i));
    } else {
        assert(s.take(i) =~= s);
    }
}

/// Reads `s` as an unsigned hex number up to `max`.
pub fn parse_hex(s: &[char], max: u64) -> (r: Option<u64>)
    ensures
        match (r, hex_number(s@, max as nat)) {
            (Some(v), Some(n)) => v == n,
            (None, None) => true,
            _ => false,
        },
{
    let len: usize = s.len();
    let start: usize = if len > 0 && s[0] == '+' {
        1
    } else {
        0
    };
    let ghost t = s@.skip(start as int);
    assert(start == 0 ==> t =~= s@);
    if start == len {
        return None;
    }
    let mut v: u64 = 0;
    let mut i: usize = start;
    assert(t.take(0) =~= Seq::empty());
    while i < len
        invariant
            start <= i <= len,
            start < len,
            len == s@.len(),
            t == s@.skip(start as int),
            hex_number(s@, max as nat) == (match digits_value(t) {
                Some(n) => if n <= max as nat {
                    Some(n)
                } else {
                    None
                },
                None => None::<nat>,
            }),
            digits_value(t.take(i - start)) == Some(v as nat),
            v <= max,
        decreases len - i,
    {
        proof {
            assert(t.take(i - start + 1).drop_last() =~= t.take(i - start));
            assert(t.take(i - start + 1).last() == s@[i as int]);
            if digits_value(t) is Some {
                lemma_digits_prefix(t, i - start + 1);
            }
        }
        let d: u64 = match hex_digit_value(s[i]) {
            Some(d) => d,
            None => return None,
        };
        let next: u128 = v as u128 * 16 + d as u128;
        if next > max as u128 {
            return None;
        }
        v = next as u64;
        i += 1;
    }
    assert(t.take(i - start) =~= t);
    Some(v)
}

pub proof fn lemma_hex_fixed_digits(v: nat, n: nat)
    ensures
        forall|i: int|
            0 <= i < n ==> {
                let c = #[trigger] hex_fixed(v, n)[i];
                (48 <= c as nat <= 57 || 97 <= c as nat <= 102)
            },
    decreases n,
{
    lemma_hex_fixed_len(v, n);
    if n > 0 {
        lemma_hex_fixed_len(v / 16, (n - 1) as nat);
        lemma_hex_fixed_digits(v / 16, (n - 1) as nat);
        assert forall|i: int| 0 <= i < n implies {
            let c = #[trigger] hex_fixed(v, n)[i];
            (48 <= c as nat <= 57 || 97 <= c as nat <= 102)
        } by {
            if i < n - 1 {
                assert(hex_fixed(v, n)[i] == hex_fixed(v / 16, (n - 1) as nat)[i]);
            }
        }
    }
}

/// `16` to the power `n`.
pub open spec fn pow16(n: nat) -> nat
    decreases n,
{
    if n == 0 {
        1
    } else {
        16 * pow16((n - 1) as nat)
    }
}

/// A number that fits in `n` hex digits is read back from them.
pub proof fn lemma_hex_round_trip(v: nat, n: nat)
    requires
        v < pow16(n),
    ensures
        digits_value(hex_fixed(v, n)) == Some(v),
    decreases n,
{
    if n > 0 {
        lemma_hex_round_trip(v / 16, (n - 1) as nat);
        assert(hex_fixed(v, n).drop_last() =~= hex_fixed(v / 16, (n - 1) as nat));
    }
}

/// A number is read back from its padded hex digits, which are no fewer than asked for.
pub proof fn lemma_hex_padded_reads_back(v: nat, n: nat)
    requires
        n > 0,
    ensures
        digits_value(hex_padded(v, n)) == Some(v),
        hex_padded(v, n).len() >= n,
        forall|max: nat| v <= max ==> #[trigger] hex_number(hex_padded(v, n), max) == Some(v),
{
    lemma_hex_padded_digits(v, n);
}

proof fn lemma_hex_padded_digits(v: nat, n: nat)
    ensures
        digits_value(hex_padded(v, n)) == Some(v),
        hex_padded(v, n).len() >= n,
        v > 0 ==> hex_padded(v, n).len() > 0,
        hex_padded(v, n).len() > 0 ==> hex_padded(v, n)[0] != '+',
    decreases v + n,
{
    if v > 0 || n > 0 {
        let m = if n > 0 {
            (n - 1) as nat
        } else {
            0
        };
        lemma_hex_padded_digits(v / 16, m);
        let front = hex_padded(v / 16, m);
        let all = hex_padded(v, n);
        assert(all == front.push(digit_char(v % 16)));
        assert(all.drop_last() =~= front);
        if front.len() > 0 {
            assert(all[0] == front[0]);
        }
    }
}

/// Digits of both cases have the same value, and only digits have one.
pub proof fn lemma_hex_digits(c: char)
    ensures
        digit_value(c) == (match c {
            '0' => Some(0nat),
            '1' => Some(1),
            '2' => Some(2),
            '3' => Some(3),
            '4' => Some(4),
            '5' => Some(5),
            '6' => Some(6),
            '7' => Some(7),
            '8' => Some(8),
            '9' => Some(9),
            'a' | 'A' => Some(10),
            'b' | 'B' => Some(11),
            'c' | 'C' => Some(12),
            'd' | 'D' => Some(13),
            'e' | 'E' => Some(14),
            'f' | 'F' => Some(15),
            _ => None,
        }),
{
}

/// `s` says `n` and then `m`, in decimal, among the words `a`, `b` and `c`.
pub open spec fn says(
    s: Seq<char>,
    a: Seq<char>,
    n: nat,
    b: Seq<char>,
    m: nat,
    c: Seq<char>,
) -> bool {
    s == a + decimal(n) + b + decimal(m) + c
}

/// `s` says `n`, in decimal, among the words `a` and `b`.
pub open spec fn says_one(s: Seq<char>, a: Seq<char>, n: nat, b: Seq<char>) -> bool {
    s == a + decimal(n) + b
}

/// A number is read from its hex digits in either case, with or without a plus sign and
/// zeros before them, where it is not above the limit.
pub proof fn lemma_hex_is_read(
    s: &[char],
    digits: Seq<char>,
    plus: bool,
    v: nat,
    n: nat,
    max: u64,
    r: Option<u64>,
)
    requires
        n > 0,
        digits.len() == hex_padded(v, n).len(),
        forall|i: int|
            0 <= i < digits.len() ==> digit_value(#[trigger] digits[i]) == digit_value(
                hex_padded(v, n)[i],
            ),
        s@ == (if plus {
            seq!['+'] + digits
        } else {
            digits
        }),
        call_ensures(parse_hex, (s, max), r),
    ensures
        v <= max ==> r == Some(v as u64),
        v > max ==> r is None,
{
    lemma_hex_padded_reads_back(v, n);
    lemma_same_digits(digits, hex_padded(v, n));
    lemma_digits_prefix(digits, 1);
    assert(digits.take(1).last() == digits[0]);
    assert(digits[0] != '+');
    if plus {
        assert(s@.skip(1) =~= digits);
    }
}

proof fn lemma_same_digits(a: Seq<char>, b: Seq<char>)
    requires
        a.len() == b.len(),
        forall|i: int|
            0 <= i < a.len() ==> digit_value(#[trigger] a[i]) == digit_value(b[i]),
    ensures
        digits_value(a) == digits_value(b),
    decreases a.len(),
{
    if a.len() > 0 {
        assert forall|i: int| 0 <= i < a.drop_last().len() implies digit_value(
            #[trigger] a.drop_last()[i],
        ) == digit_value(b.drop_last()[i]) by {
            assert(a.drop_last()[i] == a[i]);
        }
        lemma_same_digits(a.drop_last(), b.drop_last());
        assert(digit_value(a[a.len() - 1]) == digit_value(b[b.len() - 1]));
    }
}

/// What holds anything but digits is no number, nor is what holds no digit.
pub proof fn lemma_other_text_is_no_hex(s: &[char], i: int, max: u64, r: Option<u64>)
    requires
        s@.len() == 0 || {
            &&& 0 <= i < s@.len()
            &&& digit_value(s@[i]) is None
            &&& i > 0 || s@[0] != '+' || s@.len() == 1
        },
        call_ensures(parse_hex, (s, max), r),
    ensures
        r is None,
{
    if s@.len() > 0 {
        let t = if s@[0] == '+' {
            s@.skip(1)
        } else {
            s@
        };
        if t.len() > 0 && digits_value(t) is Some {
            let k = i - (s@.len() - t.len());
            lemma_digits_prefix(t, k + 1);
            assert(t.take(k + 1).last() == s@[i]);
        }
    }
}

} // verus!
