//! What the arguments of the command line mean.

use crate::storage::{first_of, lemma_first_of};
use crate::text::{chars_of, decimal, push_chars};
use vstd::prelude::*;
use vstd::slice::slice_subrange;

verus! {

/// Where a replica lives.
#[derive(Debug)]
pub enum Replica {
    /// A bucket of Google Cloud Storage, and a prefix in it.
    Gcs { bucket: String, prefix: String },
    /// A prefix in the S3 bucket that the environment names.
    S3 { prefix: String },
    /// A local directory.
    Dir { path: String },
}

/// Where a replica lives.
#[verifier::ext_equal]
pub enum ReplicaView {
    Gcs { bucket: Seq<char>, prefix: Seq<char> },
    S3 { prefix: Seq<char> },
    Dir { path: Seq<char> },
}

impl View for Replica {
    type V = ReplicaView;

    open spec fn view(&self) -> ReplicaView {
        match *self {
            Replica::Gcs { bucket, prefix } => ReplicaView::Gcs {
                bucket: bucket@,
                prefix: prefix@,
            },
            Replica::S3 { prefix } => ReplicaView::S3 { prefix: prefix@ },
            Replica::Dir { path } => ReplicaView::Dir { path: path@ },
        }
    }
}

/// `s` without `scheme` in front, if it starts with it.
pub open spec fn stripped(s: Seq<char>, scheme: Seq<char>) -> Option<Seq<char>> {
    if s.len() >= scheme.len() && s.take(scheme.len() as int) == scheme {
        Some(s.skip(scheme.len() as int))
    } else {
        None
    }
}

/// What `<bucket>` or `<bucket>/<prefix>` names.
pub open spec fn bucket_of(rest: Seq<char>) -> Option<ReplicaView> {
    let slash = first_of(rest, '/');
    if slash == 0 {
        None
    } else if slash >= rest.len() {
        Some(ReplicaView::Gcs { bucket: rest, prefix: Seq::empty() })
    } else {
        Some(
            ReplicaView::Gcs {
                bucket: rest.take(slash as int),
                prefix: rest.skip((slash + 1) as int),
            },
        )
    }
}

/// What a replica argument names: `gs://<bucket>[/<prefix>]`, `s3://<prefix>`, or
/// a directory. A `gs://` replica needs a bucket name.
pub open spec fn replica_of(s: Seq<char>) -> Option<ReplicaView> {
    match stripped(s, seq!['g', 's', ':', '/', '/']) {
        Some(rest) => bucket_of(rest),
        None => match stripped(s, seq!['s', '3', ':', '/', '/']) {
            Some(prefix) => Some(ReplicaView::S3 { prefix }),
            None => Some(ReplicaView::Dir { path: s }),
        },
    }
}

/// Whether `s` starts with `scheme`.
fn has_scheme(s: &[char], scheme: &[char]) -> (r: bool)
    ensures
        r == (stripped(s@, scheme@) is Some),
{
    let n: usize = scheme.len();
    if s.len() < n {
        return false;
    }
    let mut i: usize = 0;
    while i < n
        invariant
            i <= n,
            n == scheme@.len(),
            n <= s@.len(),
            forall|k: int| 0 <= k < i ==> s@[k] == #[trigger] scheme@[k],
        decreases n - i,
    {
        if s[i] != scheme[i] {
            assert(s@.take(n as int)[i as int] != scheme@[i as int]);
            return false;
        }
        i += 1;
    }
    assert(s@.take(n as int) =~= scheme@);
    true
}

/// A string of the given characters.
fn string_of(cs: &[char]) -> (s: String)
    ensures
        s@ == cs@,
{
    let mut s = String::new();
    push_chars(&mut s, cs);
    assert(s@ =~= cs@);
    s
}

/// Reads a replica argument. `None` for a `gs://` replica without a bucket.
pub fn parse_replica(replica: &str) -> (r: Option<Replica>)
    ensures
        match (r, replica_of(replica@)) {
            (Some(a), Some(s)) => a@ == s,
            (None, None) => true,
            _ => false,
        },
{
    let cs = chars_of(replica);
    let len: usize = cs.len();
    let gs: Vec<char> = vec!['g', 's', ':', '/', '/'];
    let s3: Vec<char> = vec!['s', '3', ':', '/', '/'];
    assert(gs@ =~= seq!['g', 's', ':', '/', '/']);
    assert(s3@ =~= seq!['s', '3', ':', '/', '/']);
    if has_scheme(&cs, &gs) {
        let rest = slice_subrange(&cs, 5, len);
        assert(rest@ =~= replica@.skip(5));
        let n: usize = rest.len();
        let mut slash: usize = 0;
        while slash < n && rest[slash] != '/'
            invariant
                slash <= n,
                n == rest@.len(),
                forall|k: int| 0 <= k < slash ==> #[trigger] rest@[k] != '/',
            decreases n - slash,
        {
            slash += 1;
        }
        proof {
            lemma_first_of(rest@, '/', slash as int);
        }
        if slash == 0 {
            return None;
        }
        if slash == n {
            let bucket = string_of(rest);
            let prefix = String::new();
            assert(prefix@ =~= Seq::empty());
            return Some(Replica::Gcs { bucket, prefix });
        }
        let left = slice_subrange(rest, 0, slash);
        let right = slice_subrange(rest, slash + 1, n);
        assert(left@ =~= rest@.take(slash as int));
        assert(right@ =~= rest@.skip(slash + 1));
        return Some(Replica::Gcs { bucket: string_of(left), prefix: string_of(right) });
    }
    if has_scheme(&cs, &s3) {
        let rest = slice_subrange(&cs, 5, len);
        assert(rest@ =~= replica@.skip(5));
        return Some(Replica::S3 { prefix: string_of(rest) });
    }
    Some(Replica::Dir { path: string_of(&cs) })
}

/// The value of a decimal digit.
pub open spec fn decimal_digit(c: char) -> Option<nat> {
    if 48 <= c as nat <= 57 {
        Some((c as nat - 48) as nat)
    } else {
        None
    }
}

/// The number that decimal digits spell; the empty string spells 0.
pub open spec fn decimal_value(s: Seq<char>) -> Option<nat>
    decreases s.len(),
{
    if s.len() == 0 {
        Some(0)
    } else {
        match (decimal_value(s.drop_last()), decimal_digit(s.last())) {
            (Some(v), Some(d)) => Some(v * 10 + d),
            _ => None,
        }
    }
}

/// What reading `s` as a signed decimal number of 64 bits gives: one or more
/// digits after an optional sign.
pub open spec fn signed_number(s: Seq<char>) -> Option<i64> {
    let signed = s.len() > 0 && (s[0] == '-' || s[0] == '+');
    let negative = s.len() > 0 && s[0] == '-';
    let digits = if signed {
        s.skip(1)
    } else {
        s
    };
    if digits.len() == 0 {
        None
    } else {
        match decimal_value(digits) {
            None => None,
            Some(v) => if negative {
                if v <= 0x8000_0000_0000_0000 {
                    Some((-v) as i64)
                } else {
                    None
                }
            } else if v <= i64::MAX {
                Some(v as i64)
            } else {
                None
            },
        }
    }
}

fn digit_of(c: char) -> (r: Option<u64>)
    ensures
        match (r, decimal_digit(c)) {
            (Some(d), Some(s)) => d == s && d < 10,
            (None, None) => true,
            _ => false,
        },
{
    let n: u32 = c as u32;
    if 48 <= n && n <= 57 {
        Some((n - 48) as u64)
    } else {
        None
    }
}

proof fn lemma_decimal_prefix(s: Seq<char>, i: int)
    requires
        0 <= i <= s.len(),
        decimal_value(s) is Some,
    ensures
        decimal_value(s.take(i)) is Some,
        decimal_value(s.take(i))->0 <= decimal_value(s)->0,
    decreases s.len(),
{
    if i < s.len() {
        lemma_decimal_prefix(s.drop_last(), i);
        assert(s.drop_last().take(i) =~= s.take(i));
    } else {
        assert(s.take(i) =~= s);
    }
}

/// Reads decimal digits as a number up to `max`.
fn parse_digits(s: &[char], max: u64) -> (r: Option<u64>)
    ensures
        r == match decimal_value(s@) {
            Some(v) => if v <= max {
                Some(v as u64)
            } else {
                None
            },
            None => None,
        },
{
    let mut v: u64 = 0;
    let mut i: usize = 0;
    assert(s@.take(0) =~= Seq::empty());
    while i < s.len()
        invariant
            i <= s@.len(),
            decimal_value(s@.take(i as int)) == Some(v as nat),
            v <= max,
        decreases s@.len() - i,
    {
        proof {
            assert(s@.take(i + 1).drop_last() =~= s@.take(i as int));
            if decimal_value(s@) is Some {
                lemma_decimal_prefix(s@, i + 1);
            }
        }
        let d: u64 = match digit_of(s[i]) {
            Some(d) => d,
            None => return None,
        };
        let next: u128 = v as u128 * 10 + d as u128;
        if next > max as u128 {
            return None;
        }
        v = next as u64;
        i += 1;
    }
    assert(s@.take(i as int) =~= s@);
    Some(v)
}

/// Reads a signed decimal number of 64 bits.
pub fn parse_i64(s: &str) -> (r: Option<i64>)
    ensures
        r == signed_number(s@),
{
    let cs = chars_of(s);
    let len: usize = cs.len();
    let negative: bool = len > 0 && cs[0] == '-';
    let start: usize = if len > 0 && (cs[0] == '-' || cs[0] == '+') {
        1
    } else {
        0
    };
    let digits = slice_subrange(&cs, start, len);
    assert(start == 0 ==> digits@ =~= s@);
    assert(start == 1 ==> digits@ =~= s@.skip(1));
    if digits.len() == 0 {
        return None;
    }
    if negative {
        match parse_digits(digits, 0x8000_0000_0000_0000) {
            None => None,
            Some(v) => {
                let n: i128 = -(v as i128);
                Some(n as i64)
            },
        }
    } else {
        match parse_digits(digits, 0x7FFF_FFFF_FFFF_FFFF) {
            None => None,
            Some(v) => Some(v as i64),
        }
    }
}

/// The instant that `s` spells, in milliseconds since the Unix epoch, as
/// [`jiff::Timestamp`] reads it: `None` where it does not spell one.
pub uninterp spec fn timestamp_millis(s: Seq<char>) -> Option<i64>;

/// Reads an instant with `<jiff::Timestamp as FromStr>::from_str` and takes its
/// whole milliseconds. Trusted: whether it reads, and the milliseconds, depend on
/// the characters alone. Nothing is said of the text of an error.
#[verifier::external_body]
fn read_timestamp(s: &str) -> (r: Result<i64, String>)
    ensures
        match r {
            Ok(ms) => timestamp_millis(s@) == Some(ms),
            Err(_) => timestamp_millis(s@) is None,
        },
{
    match s.parse::<jiff::Timestamp>() {
        Ok(t) => Ok(t.as_millisecond()),
        Err(e) => Err(e.to_string()),
    }
}

/// Reads an instant: a bare integer is milliseconds since the Unix epoch, anything
/// else an RFC 3339 datetime.
pub fn parse_timestamp_ms(s: &str) -> (r: Result<i64, String>)
    ensures
        match signed_number(s@) {
            Some(ms) => r == Ok::<i64, String>(ms),
            None => match timestamp_millis(s@) {
                Some(ms) => r == Ok::<i64, String>(ms),
                None => r is Err,
            },
        },
{
    match parse_i64(s) {
        Some(ms) => Ok(ms),
        None => read_timestamp(s),
    }
}

/// A `gs://` replica is a bucket, up to the first slash, and a prefix after it; without a
/// bucket it is none.
pub proof fn lemma_bucket_and_prefix(
    s: &str,
    bucket: Seq<char>,
    prefix: Seq<char>,
    slash: bool,
    r: Option<Replica>,
)
    requires
        !bucket.contains('/'),
        s@ == "gs://"@ + bucket + (if slash {
            seq!['/'] + prefix
        } else {
            Seq::empty()
        }),
        call_ensures(parse_replica, (s,), r),
    ensures
        r is Some <==> bucket.len() > 0,
        bucket.len() > 0 ==> (r matches Some(Replica::Gcs { bucket: b, prefix: p }) && (b@ == bucket
            && p@ == (if slash {
            prefix
        } else {
            Seq::empty()
        }))),
{
    reveal_strlit("gs://");
    let scheme = seq!['g', 's', ':', '/', '/'];
    assert("gs://"@ =~= scheme);
    assert(s@.take(5) =~= scheme);
    let rest = s@.skip(5);
    let n = bucket.len() as int;
    assert forall|k: int| 0 <= k < n implies #[trigger] rest[k] != '/' by {
        assert(rest[k] == bucket[k]);
        assert(bucket.contains(bucket[k]));
    }
    lemma_first_of(rest, '/', n);
    assert(rest.take(n) =~= bucket);
    if slash {
        assert(rest[n] == '/');
        assert(rest.skip(n + 1) =~= prefix);
    } else {
        assert(rest =~= bucket);
    }
    if let Some(a) = r {
        assert(a@ == replica_of(s@)->0);
    }
}

/// An `s3://` replica is a prefix.
pub proof fn lemma_s3_prefix(s: &str, prefix: Seq<char>, r: Option<Replica>)
    requires
        s@ == "s3://"@ + prefix,
        call_ensures(parse_replica, (s,), r),
    ensures
        r matches Some(Replica::S3 { prefix: p }) && p@ == prefix,
{
    reveal_strlit("s3://");
    let scheme = seq!['s', '3', ':', '/', '/'];
    assert("s3://"@ =~= scheme);
    assert(s@.take(5) =~= scheme);
    assert(s@.skip(5) =~= prefix);
    let gs = seq!['g', 's', ':', '/', '/'];
    assert(s@.take(5)[0] == 's' && gs[0] == 'g');
    assert(r->0@ == replica_of(s@)->0);
}

/// Anything else is a directory.
pub proof fn lemma_directory(s: &str, r: Option<Replica>)
    requires
        !(s@.len() >= 5 && s@.take(5) == "gs://"@),
        !(s@.len() >= 5 && s@.take(5) == "s3://"@),
        call_ensures(parse_replica, (s,), r),
    ensures
        r matches Some(Replica::Dir { path }) && path@ == s@,
{
    reveal_strlit("gs://");
    reveal_strlit("s3://");
    assert("gs://"@ =~= seq!['g', 's', ':', '/', '/']);
    assert("s3://"@ =~= seq!['s', '3', ':', '/', '/']);
    assert(r->0@ == replica_of(s@)->0);
}

proof fn lemma_decimal_reads_back(v: nat)
    ensures
        decimal_value(decimal(v)) == Some(v),
        decimal(v).len() > 0,
        48 <= decimal(v)[0] as nat <= 57,
    decreases v,
{
    if v < 10 {
        assert(decimal(v).drop_last() =~= Seq::empty());
        assert(decimal_value(Seq::empty()) == Some(0nat));
    } else {
        lemma_decimal_reads_back(v / 10);
        assert(decimal(v).drop_last() =~= decimal(v / 10));
        assert(decimal(v)[0] == decimal(v / 10)[0]);
    }
}

/// A number is read from its decimal digits after any zeros, with or without a sign, where
/// it fits.
pub proof fn lemma_numbers_are_read(s: &str, v: nat, zeros: nat, sign: Option<bool>, r: Option<i64>)
    requires
        s@ == (match sign {
            None => Seq::empty(),
            Some(true) => seq!['-'],
            Some(false) => seq!['+'],
        }) + (Seq::new(zeros, |i: int| '0') + decimal(v)),
        call_ensures(parse_i64, (s,), r),
    ensures
        sign == Some(true) && v <= 0x8000_0000_0000_0000 ==> r == Some((-v) as i64),
        sign == Some(true) && v > 0x8000_0000_0000_0000 ==> r is None,
        sign != Some(true) && v <= i64::MAX ==> r == Some(v as i64),
        sign != Some(true) && v > i64::MAX ==> r is None,
{
    lemma_decimal_reads_back(v);
    let z = Seq::new(zeros, |i: int| '0');
    let digits = z + decimal(v);
    lemma_leading_zeros(zeros, decimal(v));
    match sign {
        None => {
            assert(s@ =~= digits);
            if zeros > 0 {
                assert(s@[0] == '0');
            } else {
                assert(s@[0] == decimal(v)[0]);
            }
        },
        Some(true) => {
            assert(s@.skip(1) =~= digits);
        },
        Some(false) => {
            assert(s@.skip(1) =~= digits);
        },
    }
}

proof fn lemma_leading_zeros(n: nat, s: Seq<char>)
    requires
        decimal_value(s) is Some,
    ensures
        decimal_value(Seq::new(n, |i: int| '0') + s) == decimal_value(s),
    decreases s.len(), n,
{
    let z = Seq::new(n, |i: int| '0');
    if s.len() > 0 {
        lemma_leading_zeros(n, s.drop_last());
        assert((z + s).drop_last() =~= z + s.drop_last());
    } else if n > 0 {
        let front = Seq::new((n - 1) as nat, |i: int| '0');
        lemma_leading_zeros((n - 1) as nat, s);
        assert((z + s).drop_last() =~= front + s);
    } else {
        assert(z + s =~= s);
    }
}

/// What has anything but digits after its sign is no number, nor is what has no digit.
pub proof fn lemma_other_text_is_no_number(s: &str, i: int, r: Option<i64>)
    requires
        0 <= i < s@.len(),
        !(48 <= s@[i] as nat <= 57),
        i > 0 || (s@[0] != '-' && s@[0] != '+') || s@.len() == 1,
        call_ensures(parse_i64, (s,), r),
    ensures
        r is None,
{
    let digits = if s@[0] == '-' || s@[0] == '+' {
        s@.skip(1)
    } else {
        s@
    };
    if digits.len() > 0 && decimal_value(digits) is Some {
        let k = i - (s@.len() - digits.len());
        lemma_decimal_prefix(digits, k + 1);
        assert(digits.take(k + 1).last() == s@[i]);
    }
}

/// A bare number is milliseconds; any other text is read as an instant.
pub proof fn lemma_numbers_before_instants(s: &str, n: Option<i64>, r: Result<i64, String>)
    requires
        call_ensures(parse_i64, (s,), n),
        call_ensures(parse_timestamp_ms, (s,), r),
    ensures
        n matches Some(ms) ==> r == Ok::<i64, String>(ms),
        n is None ==> match timestamp_millis(s@) {
            Some(ms) => r == Ok::<i64, String>(ms),
            None => r is Err,
        },
{
}

} // verus!
