//! The replica: how LTX files are named and listed, and what an upload means.
//!
//! A file lives at `<prefix>/<level>/<min>-<max>.ltx`, the level as four hex
//! digits and the TXIDs as sixteen, so the store's lexicographic listing of a
//! level is also TXID order.

use crate::sync::error::SyncError;
use crate::text::{
    chars_of, digit_char, digits_value, hex_fixed, hex_number, hex_padded,
    lemma_hex_fixed_digits, lemma_hex_fixed_len, lemma_hex_padded_reads_back,
    lemma_hex_round_trip, parse_hex, pow16, push_chars, push_hex, push_hex_padded,
};
use crate::time::Time;
use vstd::prelude::*;
use vstd::slice::slice_subrange;

verus! {

/// Metadata about one stored LTX object.
#[derive(Clone, Copy, Debug, PartialEq, Eq)]
pub struct LtxFileInfo {
    pub level: u32,
    pub min_txid: u64,
    pub max_txid: u64,
    pub size: u64,
    /// When the object was created, where that is known.
    pub created_at: Option<Time>,
}

/// The name of the LTX file of a TXID range.
pub open spec fn ltx_name(min: u64, max: u64) -> Seq<char> {
    hex_fixed(min as nat, 16) + seq!['-'] + hex_fixed(max as nat, 16) + suffix()
}

/// The suffix of an LTX file name.
pub open spec fn suffix() -> Seq<char> {
    seq!['.', 'l', 't', 'x']
}

/// The name of the LTX file of a TXID range.
pub fn ltx_filename(min: u64, max: u64) -> (s: String)
    ensures
        s@ == ltx_name(min, max),
{
    let mut s = String::new();
    push_filename(&mut s, min, max);
    assert(s@ =~= ltx_name(min, max));
    s
}

fn push_filename(s: &mut String, min: u64, max: u64)
    ensures
        final(s)@ == old(s)@ + ltx_name(min, max),
{
    push_hex(s, min, 16);
    s.push('-');
    push_hex(s, max, 16);
    s.push('.');
    s.push('l');
    s.push('t');
    s.push('x');
    assert(s@ =~= old(s)@ + ltx_name(min, max));
}

/// The position of the first `c` in `s`, or the length of `s`.
pub open spec fn first_of(s: Seq<char>, c: char) -> nat
    decreases s.len(),
{
    if s.len() == 0 || s[0] == c {
        0
    } else {
        1 + first_of(s.drop_first(), c)
    }
}

/// `s` ends with `end`.
pub open spec fn ends_with(s: Seq<char>, end: Seq<char>) -> bool {
    s.len() >= end.len() && s.skip(s.len() - end.len()) == end
}

/// The TXID range that the file name `name` states.
pub open spec fn name_range(name: Seq<char>) -> Option<(u64, u64)> {
    if !ends_with(name, suffix()) {
        None
    } else {
        let stem = name.take(name.len() - 4);
        let dash = first_of(stem, '-');
        if dash >= stem.len() {
            None
        } else {
            match (
                hex_number(stem.take(dash as int), u64::MAX as nat),
                hex_number(stem.skip((dash + 1) as int), u64::MAX as nat),
            ) {
                (Some(min), Some(max)) => Some((min as u64, max as u64)),
                _ => None,
            }
        }
    }
}

pub proof fn lemma_first_of(s: Seq<char>, c: char, i: int)
    requires
        0 <= i <= s.len(),
        forall|k: int| 0 <= k < i ==> #[trigger] s[k] != c,
    ensures
        i < s.len() && s[i] == c ==> first_of(s, c) == i,
        i == s.len() ==> first_of(s, c) == i,
    decreases s.len(),
{
    if i > 0 {
        assert(s[0] != c);
        assert forall|k: int| 0 <= k < i - 1 implies #[trigger] s.drop_first()[k] != c by {
            assert(s.drop_first()[k] == s[k + 1]);
        }
        lemma_first_of(s.drop_first(), c, i - 1);
    }
}

/// Whether `s` ends with `end`.
fn has_suffix(s: &[char], end: &[char]) -> (r: bool)
    ensures
        r == ends_with(s@, end@),
{
    let n: usize = s.len();
    let m: usize = end.len();
    if n < m {
        return false;
    }
    let mut i: usize = 0;
    while i < m
        invariant
            i <= m <= n,
            n == s@.len(),
            m == end@.len(),
            forall|k: int| 0 <= k < i ==> s@[n - m + k] == #[trigger] end@[k],
        decreases m - i,
    {
        if s[n - m + i] != end[i] {
            assert(s@.skip(n - m)[i as int] != end@[i as int]);
            return false;
        }
        i += 1;
    }
    assert(s@.skip(n - m) =~= end@);
    true
}

/// Parses `<min>-<max>.ltx` into its TXID range.
pub fn parse_ltx_filename(name: &str) -> (r: Option<(u64, u64)>)
    ensures
        r == name_range(name@),
{
    let cs = chars_of(name);
    let len: usize = cs.len();
    let end: Vec<char> = vec!['.', 'l', 't', 'x'];
    assert(end@ =~= suffix());
    if !has_suffix(&cs, &end) {
        return None;
    }
    let stem: usize = len - 4;
    let ghost st = name@.take(stem as int);
    let mut dash: usize = 0;
    while dash < stem && cs[dash] != '-'
        invariant
            dash <= stem < len,
            len == cs@.len(),
            cs@ == name@,
            st == name@.take(stem as int),
            forall|k: int| 0 <= k < dash ==> #[trigger] st[k] != '-',
        decreases stem - dash,
    {
        assert(st[dash as int] == cs@[dash as int]);
        dash += 1;
    }
    proof {
        lemma_first_of(st, '-', dash as int);
        if dash < stem {
            assert(st[dash as int] == cs@[dash as int]);
        }
    }
    if dash == stem {
        return None;
    }
    let left = slice_subrange(&cs, 0, dash);
    let right = slice_subrange(&cs, dash + 1, stem);
    assert(left@ =~= st.take(dash as int));
    assert(right@ =~= st.skip(dash + 1));
    match (parse_hex(left, u64::MAX), parse_hex(right, u64::MAX)) {
        (Some(min), Some(max)) => Some((min, max)),
        _ => None,
    }
}

proof fn lemma_pow16_values()
    ensures
        pow16(16) == 0x1_0000_0000_0000_0000,
{
    reveal_with_fuel(pow16, 17);
}

/// The name of a file states its TXID range.
pub proof fn lemma_name_round_trip(min: u64, max: u64)
    ensures
        name_range(ltx_name(min, max)) == Some((min, max)),
{
    let a = hex_fixed(min as nat, 16);
    let b = hex_fixed(max as nat, 16);
    let name = ltx_name(min, max);
    lemma_hex_fixed_len(min as nat, 16);
    lemma_hex_fixed_len(max as nat, 16);
    lemma_hex_fixed_digits(min as nat, 16);
    lemma_hex_fixed_digits(max as nat, 16);
    lemma_pow16_values();
    lemma_hex_round_trip(min as nat, 16);
    lemma_hex_round_trip(max as nat, 16);
    assert(name.skip(name.len() - 4) =~= suffix());
    let stem = name.take(name.len() - 4);
    assert(stem =~= a + seq!['-'] + b);
    assert forall|k: int| 0 <= k < 16 implies #[trigger] stem[k] != '-' by {
        assert(stem[k] == a[k]);
    }
    lemma_first_of(stem, '-', 16);
    assert(stem.take(16) =~= a);
    assert(stem.skip(17) =~= b);
    assert(a[0] != '+');
    assert(b[0] != '+');
}

/// `a` stands before `b` in lexicographic order.
pub open spec fn lex_less(a: Seq<char>, b: Seq<char>) -> bool {
    exists|k: int|
        0 <= k < a.len() && k < b.len() && a.take(k) == b.take(k) && (#[trigger] a[k] as nat)
            < b[k] as nat
}

proof fn lemma_hex_order(v: nat, w: nat, n: nat)
    requires
        v < w < pow16(n),
    ensures
        lex_less(hex_fixed(v, n), hex_fixed(w, n)),
    decreases n,
{
    let a = hex_fixed(v, n);
    let b = hex_fixed(w, n);
    lemma_hex_fixed_len(v, n);
    lemma_hex_fixed_len(w, n);
    let a1 = hex_fixed(v / 16, (n - 1) as nat);
    let b1 = hex_fixed(w / 16, (n - 1) as nat);
    lemma_hex_fixed_len(v / 16, (n - 1) as nat);
    lemma_hex_fixed_len(w / 16, (n - 1) as nat);
    if v / 16 < w / 16 {
        lemma_hex_order(v / 16, w / 16, (n - 1) as nat);
        let k = choose|k: int|
            0 <= k < a1.len() && k < b1.len() && a1.take(k) == b1.take(k) && (#[trigger] a1[k]
                as nat) < b1[k] as nat;
        assert(a.take(k) =~= a1.take(k));
        assert(b.take(k) =~= b1.take(k));
        assert(a[k] == a1[k]);
    } else {
        let k = n - 1;
        assert(a.take(k) =~= a1);
        assert(b.take(k) =~= b1);
        assert(a[k] == digit_char(v % 16));
    }
}

/// The lexicographic order of names is TXID order: by minimum TXID, then by
/// maximum TXID.
pub proof fn lemma_names_sort_by_txid(min1: u64, max1: u64, min2: u64, max2: u64)
    requires
        min1 < min2 || (min1 == min2 && max1 < max2),
    ensures
        lex_less(ltx_name(min1, max1), ltx_name(min2, max2)),
{
    lemma_pow16_values();
    let a = hex_fixed(min1 as nat, 16);
    let b = hex_fixed(min2 as nat, 16);
    let c = hex_fixed(max1 as nat, 16);
    let d = hex_fixed(max2 as nat, 16);
    lemma_hex_fixed_len(min1 as nat, 16);
    lemma_hex_fixed_len(min2 as nat, 16);
    lemma_hex_fixed_len(max1 as nat, 16);
    lemma_hex_fixed_len(max2 as nat, 16);
    let x = ltx_name(min1, max1);
    let y = ltx_name(min2, max2);
    if min1 < min2 {
        lemma_hex_order(min1 as nat, min2 as nat, 16);
        let k = choose|k: int|
            0 <= k < a.len() && k < b.len() && a.take(k) == b.take(k) && (#[trigger] a[k] as nat)
                < b[k] as nat;
        assert(x.take(k) =~= a.take(k));
        assert(y.take(k) =~= b.take(k));
        assert(x[k] == a[k]);
    } else {
        lemma_hex_order(max1 as nat, max2 as nat, 16);
        let k = choose|k: int|
            0 <= k < c.len() && k < d.len() && c.take(k) == d.take(k) && (#[trigger] c[k] as nat)
                < d[k] as nat;
        assert(x.take(17 + k) =~= a + seq!['-'] + c.take(k));
        assert(y.take(17 + k) =~= b + seq!['-'] + d.take(k));
        assert(x[17 + k] == c[k]);
    }
}

/// `s` without the slashes at its start.
pub open spec fn skip_slashes(s: Seq<char>) -> Seq<char>
    decreases s.len(),
{
    if s.len() > 0 && s[0] == '/' {
        skip_slashes(s.skip(1))
    } else {
        s
    }
}

/// `s` without the slashes at its end.
pub open spec fn drop_slashes(s: Seq<char>) -> Seq<char>
    decreases s.len(),
{
    if s.len() > 0 && s.last() == '/' {
        drop_slashes(s.drop_last())
    } else {
        s
    }
}

/// Where the files of a replica live: their keys under a prefix.
#[derive(Debug)]
pub struct KeyLayout {
    prefix: String,
}

impl View for KeyLayout {
    type V = Seq<char>;

    /// The key prefix, without slashes around it.
    closed spec fn view(&self) -> Seq<char> {
        self.prefix@
    }
}

/// The directory of a level under `prefix`.
pub open spec fn level_key(prefix: Seq<char>, level: u32) -> Seq<char> {
    if prefix.len() == 0 {
        hex_padded(level as nat, 4)
    } else {
        prefix + seq!['/'] + hex_padded(level as nat, 4)
    }
}

impl KeyLayout {
    /// Places all keys under `prefix` (use `""` for the store root).
    pub fn new(prefix: &str) -> (k: KeyLayout)
        ensures
            k@ == drop_slashes(skip_slashes(prefix@)),
    {
        let cs = chars_of(prefix);
        let len: usize = cs.len();
        let mut i: usize = 0;
        assert(cs@.skip(0) =~= cs@);
        while i < len && cs[i] == '/'
            invariant
                i <= len,
                len == cs@.len(),
                skip_slashes(cs@) == skip_slashes(cs@.skip(i as int)),
            decreases len - i,
        {
            assert(cs@.skip(i as int).skip(1) =~= cs@.skip(i + 1));
            i += 1;
        }
        let ghost body = cs@.skip(i as int);
        let mut j: usize = len;
        assert(cs@.subrange(i as int, len as int) =~= body);
        while j > i && cs[j - 1] == '/'
            invariant
                i <= j <= len,
                len == cs@.len(),
                drop_slashes(body) == drop_slashes(cs@.subrange(i as int, j as int)),
            decreases j,
        {
            assert(cs@.subrange(i as int, j as int).drop_last() =~= cs@.subrange(
                i as int,
                j - 1,
            ));
            j -= 1;
        }
        let kept = slice_subrange(&cs, i, j);
        let mut p = String::new();
        push_chars(&mut p, kept);
        assert(p@ =~= kept@);
        KeyLayout { prefix: p }
    }

    /// The directory of a level.
    pub fn level_dir(&self, level: u32) -> (s: String)
        ensures
            s@ == level_key(self@, level),
    {
        let mut s = String::new();
        let cs = chars_of(self.prefix.as_str());
        if cs.len() > 0 {
            push_chars(&mut s, &cs);
            s.push('/');
        }
        push_hex_padded(&mut s, level as u64, 4);
        assert(s@ =~= level_key(self@, level));
        s
    }

    /// The key of an LTX file.
    pub fn ltx_key(&self, level: u32, min_txid: u64, max_txid: u64) -> (s: String)
        ensures
            s@ == level_key(self@, level) + seq!['/'] + ltx_name(min_txid, max_txid),
    {
        let mut s = self.level_dir(level);
        s.push('/');
        push_filename(&mut s, min_txid, max_txid);
        assert(s@ =~= level_key(self@, level) + seq!['/'] + ltx_name(min_txid, max_txid));
        s
    }
}

/// An object as a store lists it.
#[derive(Debug)]
pub struct ListedObject {
    /// The last part of its key.
    pub name: String,
    pub size: u64,
    pub created_at: Option<Time>,
}

/// What an object listed at `level` says as an LTX file, if it is one.
pub open spec fn listed_info(level: u32, o: ListedObject) -> Option<LtxFileInfo> {
    match name_range(o.name@) {
        None => None,
        Some((min, max)) => Some(
            LtxFileInfo {
                level,
                min_txid: min,
                max_txid: max,
                size: o.size,
                created_at: o.created_at,
            },
        ),
    }
}

/// `a` comes no later than `b` in TXID order.
pub open spec fn txid_le(a: LtxFileInfo, b: LtxFileInfo) -> bool {
    a.min_txid < b.min_txid || (a.min_txid == b.min_txid && a.max_txid <= b.max_txid)
}

/// How many of the files (in TXID order) come no later than `f`.
pub open spec fn slot(files: Seq<LtxFileInfo>, f: LtxFileInfo) -> nat
    decreases files.len(),
{
    if files.len() == 0 || txid_le(files.last(), f) {
        files.len()
    } else {
        slot(files.drop_last(), f)
    }
}

/// The LTX files among listed objects in TXID order; files of one range keep the
/// order in which they were listed.
pub open spec fn listing(level: u32, objects: Seq<ListedObject>) -> Seq<LtxFileInfo>
    decreases objects.len(),
{
    if objects.len() == 0 {
        Seq::empty()
    } else {
        let before = listing(level, objects.drop_last());
        match listed_info(level, objects.last()) {
            None => before,
            Some(f) => before.insert(slot(before, f) as int, f),
        }
    }
}

/// The files stand in TXID order.
pub open spec fn in_txid_order(files: Seq<LtxFileInfo>) -> bool {
    forall|i: int, j: int|
        0 <= i <= j < files.len() ==> txid_le(#[trigger] files[i], #[trigger] files[j])
}

/// A file is put where the order stays.
pub proof fn lemma_slot(files: Seq<LtxFileInfo>, f: LtxFileInfo)
    requires
        in_txid_order(files),
    ensures
        slot(files, f) <= files.len(),
        in_txid_order(files.insert(slot(files, f) as int, f)),
        forall|i: int|
            slot(files, f) <= i < files.len() ==> !txid_le(#[trigger] files[i], f),
    decreases files.len(),
{
    let n = slot(files, f) as int;
    if files.len() == 0 {
    } else if txid_le(files.last(), f) {
        let out = files.insert(n, f);
        assert(out =~= files.push(f));
    } else {
        let front = files.drop_last();
        assert forall|i: int, j: int| 0 <= i <= j < front.len() implies txid_le(
            #[trigger] front[i],
            #[trigger] front[j],
        ) by {
            assert(txid_le(files[i], files[j]));
        }
        lemma_slot(front, f);
        let out = files.insert(n, f);
        let fo = front.insert(n, f);
        assert(out =~= fo.push(files.last()));
        assert forall|i: int, j: int| 0 <= i <= j < out.len() implies txid_le(
            #[trigger] out[i],
            #[trigger] out[j],
        ) by {
            if j < fo.len() {
                assert(out[i] == fo[i] && out[j] == fo[j]);
            } else if i < fo.len() {
                assert(out[i] == fo[i]);
                if i < n {
                    assert(fo[i] == files[i]);
                } else if i > n {
                    assert(fo[i] == files[i - 1]);
                }
            }
        }
        assert forall|i: int| n <= i < files.len() implies !txid_le(#[trigger] files[i], f) by {
            if i < front.len() {
                assert(front[i] == files[i]);
            }
        }
    }
}

/// A listing is in TXID order, whatever order the store listed the objects in.
pub proof fn lemma_listing_sorted(level: u32, objects: Seq<ListedObject>)
    ensures
        in_txid_order(listing(level, objects)),
    decreases objects.len(),
{
    if objects.len() > 0 {
        lemma_listing_sorted(level, objects.drop_last());
        if let Some(f) = listed_info(level, objects.last()) {
            lemma_slot(listing(level, objects.drop_last()), f);
        }
    }
}

/// The files in TXID order; files of one range keep their order.
pub open spec fn txid_sorted(files: Seq<LtxFileInfo>) -> Seq<LtxFileInfo>
    decreases files.len(),
{
    if files.len() == 0 {
        Seq::empty()
    } else {
        let before = txid_sorted(files.drop_last());
        before.insert(slot(before, files.last()) as int, files.last())
    }
}

pub proof fn lemma_txid_sorted(files: Seq<LtxFileInfo>)
    ensures
        in_txid_order(txid_sorted(files)),
        txid_sorted(files).len() == files.len(),
    decreases files.len(),
{
    if files.len() > 0 {
        lemma_txid_sorted(files.drop_last());
        lemma_slot(txid_sorted(files.drop_last()), files.last());
    }
}

fn insert_by_txid(out: &mut Vec<LtxFileInfo>, f: LtxFileInfo)
    requires
        in_txid_order(old(out)@),
    ensures
        final(out)@ == old(out)@.insert(slot(old(out)@, f) as int, f),
        in_txid_order(final(out)@),
{
    let mut k: usize = out.len();
    assert(out@.take(k as int) =~= out@);
    while k > 0 && !(out[k - 1].min_txid < f.min_txid || (out[k - 1].min_txid == f.min_txid
        && out[k - 1].max_txid <= f.max_txid))
        invariant
            k <= out@.len(),
            out@ == old(out)@,
            slot(out@, f) == slot(out@.take(k as int), f),
        decreases k,
    {
        assert(out@.take(k as int).drop_last() =~= out@.take(k - 1));
        k -= 1;
    }
    proof {
        lemma_slot(out@, f);
    }
    out.insert(k, f);
}

/// Sorts files by TXID; files of one range keep their order.
pub fn sort_by_txid(files: &[LtxFileInfo]) -> (out: Vec<LtxFileInfo>)
    ensures
        out@ == txid_sorted(files@),
        in_txid_order(out@),
        out@.len() == files@.len(),
{
    let mut out: Vec<LtxFileInfo> = Vec::new();
    let mut i: usize = 0;
    assert(files@.take(0) =~= Seq::empty());
    while i < files.len()
        invariant
            i <= files@.len(),
            in_txid_order(out@),
            out@ == txid_sorted(files@.take(i as int)),
        decreases files@.len() - i,
    {
        assert(files@.take(i + 1).drop_last() =~= files@.take(i as int));
        assert(files@.take(i + 1).last() == files@[i as int]);
        insert_by_txid(&mut out, files[i]);
        i += 1;
    }
    assert(files@.take(i as int) =~= files@);
    proof {
        lemma_txid_sorted(files@);
    }
    out
}

/// The LTX files among the objects that a store lists at a level, sorted by
/// TXID.
pub fn list_ltx(level: u32, objects: &[ListedObject]) -> (out: Vec<LtxFileInfo>)
    ensures
        out@ == listing(level, objects@),
        in_txid_order(out@),
{
    let mut out: Vec<LtxFileInfo> = Vec::new();
    let mut i: usize = 0;
    assert(objects@.take(0) =~= Seq::empty());
    while i < objects.len()
        invariant
            i <= objects@.len(),
            in_txid_order(out@),
            out@ == listing(level, objects@.take(i as int)),
        decreases objects@.len() - i,
    {
        assert(objects@.take(i + 1).drop_last() =~= objects@.take(i as int));
        assert(objects@.take(i + 1).last() == objects@[i as int]);
        match parse_ltx_filename(objects[i].name.as_str()) {
            None => {},
            Some((min_txid, max_txid)) => {
                let f = LtxFileInfo {
                    level,
                    min_txid,
                    max_txid,
                    size: objects[i].size,
                    created_at: objects[i].created_at,
                };
                insert_by_txid(&mut out, f);
            },
        }
        i += 1;
    }
    assert(objects@.take(i as int) =~= objects@);
    proof {
        lemma_listing_sorted(level, objects@);
    }
    out
}

/// The result of a guarded upload that refuses to overwrite.
#[derive(Clone, Copy, Debug, PartialEq, Eq, Structural)]
pub enum PutOutcome {
    /// The object did not exist and was written.
    Created,
    /// The object already existed with byte-identical content: an idempotent
    /// retry of our own write. Safe to treat as success.
    AlreadyIdentical,
    /// The object already existed with *different* content: another writer
    /// produced a different LTX at this TXID (split-brain). Never overwrite.
    Conflict,
}

/// Whether two byte strings are equal.
pub fn same_bytes(a: &[u8], b: &[u8]) -> (r: bool)
    ensures
        r == (a@ == b@),
{
    let n: usize = a.len();
    if n != b.len() {
        return false;
    }
    let mut i: usize = 0;
    while i < n
        invariant
            i <= n,
            n == a@.len(),
            n == b@.len(),
            forall|k: int| 0 <= k < i ==> #[trigger] a@[k] == b@[k],
        decreases n - i,
    {
        if a[i] != b[i] {
            return false;
        }
        i += 1;
    }
    assert(a@ =~= b@);
    true
}

/// What a guarded upload of `bytes` means: `existing` is what the store already
/// held under the key, or `None` where the object was created.
pub fn cas_outcome(bytes: &[u8], existing: Option<&[u8]>) -> (r: PutOutcome)
    ensures
        r == (match existing {
            None => PutOutcome::Created,
            Some(e) => if e@ == bytes@ {
                PutOutcome::AlreadyIdentical
            } else {
                PutOutcome::Conflict
            },
        }),
{
    match existing {
        None => PutOutcome::Created,
        Some(e) => {
            if same_bytes(e, bytes) {
                PutOutcome::AlreadyIdentical
            } else {
                PutOutcome::Conflict
            }
        },
    }
}

/// A staged file at or above this size is streamed to the replica in parts;
/// smaller ones are uploaded whole, with the guard against overwriting.
pub const MULTIPART_THRESHOLD: u64 = 16_777_216;

/// How a staged file is uploaded.
#[derive(Clone, Copy, Debug, PartialEq, Eq, Structural)]
pub enum UploadMode {
    /// Streamed in parts, without a guard.
    Multipart,
    /// Whole, unless an object is already there.
    Guarded,
}

/// How to upload a staged file of `size` bytes.
pub fn upload_mode(size: u64) -> (m: UploadMode)
    ensures
        m == (if size >= MULTIPART_THRESHOLD {
            UploadMode::Multipart
        } else {
            UploadMode::Guarded
        }),
{
    if size >= MULTIPART_THRESHOLD {
        UploadMode::Multipart
    } else {
        UploadMode::Guarded
    }
}

/// Whether a guarded upload of the file that ends at `max_txid` succeeded: an
/// idempotent retry of our own write is fine, a different file at this TXID is
/// an equivocation.
pub fn upload_result(outcome: PutOutcome, max_txid: u64) -> (r: Result<(), SyncError>)
    ensures
        r == (if outcome == PutOutcome::Conflict {
            Err::<(), SyncError>(SyncError::Equivocation { txid: max_txid })
        } else {
            Ok(())
        }),
{
    match outcome {
        PutOutcome::Created => Ok(()),
        PutOutcome::AlreadyIdentical => Ok(()),
        PutOutcome::Conflict => Err(SyncError::Equivocation { txid: max_txid }),
    }
}

/// A file name: sixteen digits that spell the minimum TXID, a dash, sixteen that spell the
/// maximum, and `.ltx`.
pub proof fn lemma_filename_spells_the_range(min: u64, max: u64, s: String)
    requires
        call_ensures(ltx_filename, (min, max), s),
    ensures
        s@.len() == 37,
        digits_value(s@.subrange(0, 16)) == Some(min as nat),
        s@[16] == '-',
        digits_value(s@.subrange(17, 33)) == Some(max as nat),
        s@.subrange(33, 37) == seq!['.', 'l', 't', 'x'],
        forall|i: int|
            0 <= i < 33 && i != 16 ==> {
                let c = #[trigger] s@[i] as nat;
                48 <= c <= 57 || 97 <= c <= 102
            },
{
    let a = hex_fixed(min as nat, 16);
    let b = hex_fixed(max as nat, 16);
    lemma_hex_fixed_len(min as nat, 16);
    lemma_hex_fixed_len(max as nat, 16);
    lemma_hex_fixed_digits(min as nat, 16);
    lemma_hex_fixed_digits(max as nat, 16);
    lemma_pow16_values();
    lemma_hex_round_trip(min as nat, 16);
    lemma_hex_round_trip(max as nat, 16);
    assert(s@.subrange(0, 16) =~= a);
    assert(s@.subrange(17, 33) =~= b);
    assert(s@.subrange(33, 37) =~= seq!['.', 'l', 't', 'x']);
    assert forall|i: int| 0 <= i < 33 && i != 16 implies {
        let c = #[trigger] s@[i] as nat;
        48 <= c <= 57 || 97 <= c <= 102
    } by {
        if i < 16 {
            assert(s@[i] == a[i]);
        } else {
            assert(s@[i] == b[i - 17]);
        }
    }
}

/// A name is read as two numbers around its first dash, before `.ltx`; where one of them is
/// not a number, there is no range.
pub proof fn lemma_name_is_read(name: &str, a: Seq<char>, b: Seq<char>, r: Option<(u64, u64)>)
    requires
        name@ == a + seq!['-'] + b + seq!['.', 'l', 't', 'x'],
        !a.contains('-'),
        call_ensures(parse_ltx_filename, (name,), r),
    ensures
        r is Some <==> hex_number(a, u64::MAX as nat) is Some && hex_number(
            b,
            u64::MAX as nat,
        ) is Some,
        r matches Some((min, max)) ==> hex_number(a, u64::MAX as nat) == Some(min as nat)
            && hex_number(b, u64::MAX as nat) == Some(max as nat),
{
    let n = name@;
    assert(n.skip(n.len() - 4) =~= suffix());
    let stem = n.take(n.len() - 4);
    assert(stem =~= a + seq!['-'] + b);
    assert forall|k: int| 0 <= k < a.len() implies #[trigger] stem[k] != '-' by {
        assert(stem[k] == a[k]);
        assert(a.contains(a[k]));
    }
    lemma_first_of(stem, '-', a.len() as int);
    assert(stem.take(a.len() as int) =~= a);
    assert(stem.skip((a.len() + 1) as int) =~= b);
}

/// Only a name that ends in `.ltx` and has a dash before that states a range.
pub proof fn lemma_other_names_state_none(name: &str, r: Option<(u64, u64)>)
    requires
        call_ensures(parse_ltx_filename, (name,), r),
        r is Some,
    ensures
        exists|a: Seq<char>, b: Seq<char>|
            name@ == #[trigger] (a + seq!['-'] + b) + seq!['.', 'l', 't', 'x'] && !a.contains('-'),
{
    let n = name@;
    let stem = n.take(n.len() - 4);
    let dash = first_of(stem, '-') as int;
    lemma_first_found(stem, '-');
    let a = stem.take(dash);
    let b = stem.skip(dash + 1);
    assert(n =~= stem + n.skip(n.len() - 4));
    assert(stem =~= a + seq!['-'] + b);
    assert(name@ == (a + seq!['-'] + b) + seq!['.', 'l', 't', 'x']);
}

proof fn lemma_first_found(s: Seq<char>, c: char)
    requires
        first_of(s, c) < s.len(),
    ensures
        s[first_of(s, c) as int] == c,
        !s.take(first_of(s, c) as int).contains(c),
    decreases s.len(),
{
    if s[0] != c {
        lemma_first_found(s.drop_first(), c);
        let n = first_of(s.drop_first(), c) as int;
        assert(s.drop_first()[n] == s[n + 1]);
        assert forall|i: int| 0 <= i < n + 1 implies #[trigger] s.take(n + 1)[i] != c by {
            if i > 0 {
                assert(s.take(n + 1)[i] == s.drop_first().take(n)[i - 1]);
                assert(s.drop_first().take(n).contains(s.drop_first().take(n)[i - 1]));
            }
        }
    }
}

/// Every character is a slash.
pub open spec fn all_slashes(s: Seq<char>) -> bool {
    forall|i: int| 0 <= i < s.len() ==> #[trigger] s[i] == '/'
}

/// A layout's prefix is the given one without the slashes around it, and nothing else.
pub proof fn lemma_prefix_is_trimmed(prefix: &str, k: KeyLayout)
    requires
        call_ensures(KeyLayout::new, (prefix,), k),
    ensures
        exists|a: Seq<char>, b: Seq<char>|
            prefix@ == #[trigger] (a + k@ + b) && all_slashes(a) && all_slashes(b),
        k@.len() > 0 ==> k@[0] != '/' && k@.last() != '/',
{
    let s = prefix@;
    let t = skip_slashes(s);
    lemma_skipped(s);
    lemma_dropped(t);
    let a = s.take(s.len() - t.len());
    let b = t.skip(k@.len() as int);
    assert(s =~= a + k@ + b);
}

proof fn lemma_skipped(s: Seq<char>)
    ensures
        skip_slashes(s).len() <= s.len(),
        s.skip(s.len() - skip_slashes(s).len()) == skip_slashes(s),
        all_slashes(s.take(s.len() - skip_slashes(s).len())),
        skip_slashes(s).len() > 0 ==> skip_slashes(s)[0] != '/',
    decreases s.len(),
{
    if s.len() > 0 && s[0] == '/' {
        let u = s.skip(1);
        lemma_skipped(u);
        let n = u.len() - skip_slashes(u).len();
        assert(s.skip(n + 1) =~= u.skip(n));
        assert forall|i: int| 0 <= i < n + 1 implies #[trigger] s.take(n + 1)[i] == '/' by {
            if i > 0 {
                assert(s.take(n + 1)[i] == u.take(n)[i - 1]);
            }
        }
    } else {
        assert(s.skip(0) =~= s);
    }
}

proof fn lemma_dropped(s: Seq<char>)
    ensures
        drop_slashes(s).len() <= s.len(),
        s.take(drop_slashes(s).len() as int) == drop_slashes(s),
        all_slashes(s.skip(drop_slashes(s).len() as int)),
        drop_slashes(s).len() > 0 ==> drop_slashes(s).last() != '/',
        drop_slashes(s).len() > 0 ==> drop_slashes(s)[0] == s[0],
    decreases s.len(),
{
    if s.len() > 0 && s.last() == '/' {
        let u = s.drop_last();
        lemma_dropped(u);
        let n = drop_slashes(u).len() as int;
        assert(s.take(n) =~= u.take(n));
        assert forall|i: int| 0 <= i < s.len() - n implies #[trigger] s.skip(n)[i] == '/' by {
            if i < u.len() - n {
                assert(s.skip(n)[i] == u.skip(n)[i]);
            }
        }
    } else {
        assert(s.take(s.len() as int) =~= s);
    }
}

/// A key: the prefix and a slash, where there is a prefix, then the level in at least four
/// hex digits, a slash, and the name of the file.
pub proof fn lemma_keys_are_paths(
    k: KeyLayout,
    level: u32,
    min: u64,
    max: u64,
    dir: String,
    key: String,
    name: String,
)
    requires
        call_ensures(KeyLayout::level_dir, (&k, level), dir),
        call_ensures(KeyLayout::ltx_key, (&k, level, min, max), key),
        call_ensures(ltx_filename, (min, max), name),
    ensures
        key@ == dir@ + seq!['/'] + name@,
        ({
            let p = if k@.len() == 0 {
                k@
            } else {
                k@.push('/')
            };
            let digits = dir@.skip(p.len() as int);
            &&& dir@ == p + digits
            &&& digits.len() >= 4
            &&& level < 0x1_0000 ==> digits.len() == 4
            &&& digits_value(digits) == Some(level as nat)
        }),
{
    lemma_hex_padded_reads_back(level as nat, 4);
    let d = hex_padded(level as nat, 4);
    let p = if k@.len() == 0 {
        k@
    } else {
        k@.push('/')
    };
    assert(dir@ =~= p + d);
    assert(dir@.skip(p.len() as int) =~= d);
    if level < 0x1_0000 {
        reveal_with_fuel(hex_padded, 6);
    }
}

/// The file covers the TXIDs from `min` to `max`.
pub open spec fn covers_range(min: u64, max: u64) -> spec_fn(LtxFileInfo) -> bool {
    |f: LtxFileInfo| f.min_txid == min && f.max_txid == max
}

/// The LTX files among the objects, in the order in which they are listed.
pub open spec fn ltx_objects(level: u32, objects: Seq<ListedObject>) -> Seq<LtxFileInfo> {
    objects.filter(|o: ListedObject| listed_info(level, o) is Some).map_values(
        |o: ListedObject| listed_info(level, o)->0,
    )
}

proof fn lemma_insert_keeps(files: Seq<LtxFileInfo>, f: LtxFileInfo, min: u64, max: u64)
    requires
        in_txid_order(files),
    ensures
        files.insert(slot(files, f) as int, f).filter(covers_range(min, max)) == files.push(
            f,
        ).filter(covers_range(min, max)),
{
    lemma_slot(files, f);
    let p = covers_range(min, max);
    let n = slot(files, f) as int;
    let a = files.take(n);
    let b = files.skip(n);
    let one = seq![f];
    assert(files =~= a + b);
    assert(files.insert(n, f) =~= a + (one + b));
    assert(files.push(f) =~= (a + b) + one);
    Seq::filter_distributes_over_add(a, one + b, p);
    Seq::filter_distributes_over_add(one, b, p);
    Seq::filter_distributes_over_add(a + b, one, p);
    Seq::filter_distributes_over_add(a, b, p);
    if p(f) {
        assert forall|i: int| 0 <= i < b.len() implies !p(#[trigger] b[i]) by {
            assert(b[i] == files[n + i]);
            assert(!txid_le(files[n + i], f));
        }
        lemma_filter_none(b, p);
        assert(a.filter(p) + (one.filter(p) + b.filter(p)) =~= (a.filter(p) + b.filter(p))
            + one.filter(p));
    } else {
        assert(one.len() == 1 && one[0] == f);
        assert forall|i: int| 0 <= i < one.len() implies !p(#[trigger] one[i]) by {}
        lemma_filter_none(one, p);
        assert(a.filter(p) + (one.filter(p) + b.filter(p)) =~= (a.filter(p) + b.filter(p))
            + one.filter(p));
    }
}

proof fn lemma_filter_none(files: Seq<LtxFileInfo>, p: spec_fn(LtxFileInfo) -> bool)
    requires
        forall|i: int| 0 <= i < files.len() ==> !p(#[trigger] files[i]),
    ensures
        files.filter(p) == Seq::<LtxFileInfo>::empty(),
    decreases files.len(),
{
    reveal(Seq::filter);
    if files.len() > 0 {
        assert forall|i: int| 0 <= i < files.drop_last().len() implies !p(
            #[trigger] files.drop_last()[i],
        ) by {
            assert(files.drop_last()[i] == files[i]);
        }
        lemma_filter_none(files.drop_last(), p);
        assert(!p(files.last()));
    }
}

proof fn lemma_push_filtered(
    files: Seq<LtxFileInfo>,
    others: Seq<LtxFileInfo>,
    f: LtxFileInfo,
    p: spec_fn(LtxFileInfo) -> bool,
)
    requires
        files.filter(p) == others.filter(p),
    ensures
        files.push(f).filter(p) == others.push(f).filter(p),
{
    reveal(Seq::filter);
    assert(files.push(f).drop_last() =~= files);
    assert(others.push(f).drop_last() =~= others);
}

/// Sorting puts the files in TXID order, loses and invents none, and leaves files of one
/// range in their order.
pub proof fn lemma_sorting_keeps_the_files(
    files: &[LtxFileInfo],
    out: Vec<LtxFileInfo>,
    min: u64,
    max: u64,
)
    requires
        call_ensures(sort_by_txid, (files,), out),
    ensures
        forall|i: int, j: int|
            0 <= i < j < out@.len() ==> (#[trigger] out@[i]).min_txid < (
            #[trigger] out@[j]).min_txid || (out@[i].min_txid == out@[j].min_txid
                && out@[i].max_txid <= out@[j].max_txid),
        out@.filter(covers_range(min, max)) == files@.filter(covers_range(min, max)),
{
    lemma_sorted_filter(files@, min, max);
}

proof fn lemma_sorted_filter(files: Seq<LtxFileInfo>, min: u64, max: u64)
    ensures
        txid_sorted(files).filter(covers_range(min, max)) == files.filter(covers_range(min, max)),
    decreases files.len(),
{
    if files.len() > 0 {
        let front = files.drop_last();
        lemma_txid_sorted(front);
        lemma_sorted_filter(front, min, max);
        lemma_insert_keeps(txid_sorted(front), files.last(), min, max);
        lemma_push_filtered(txid_sorted(front), front, files.last(), covers_range(min, max));
        assert(front.push(files.last()) =~= files);
    }
}

/// A listing holds exactly the LTX files among the objects, in TXID order, and leaves files
/// of one range in their order.
pub proof fn lemma_listing_holds_the_files(
    level: u32,
    objects: &[ListedObject],
    out: Vec<LtxFileInfo>,
    min: u64,
    max: u64,
)
    requires
        call_ensures(list_ltx, (level, objects), out),
    ensures
        forall|i: int, j: int|
            0 <= i < j < out@.len() ==> (#[trigger] out@[i]).min_txid < (
            #[trigger] out@[j]).min_txid || (out@[i].min_txid == out@[j].min_txid
                && out@[i].max_txid <= out@[j].max_txid),
        out@.filter(covers_range(min, max)) == ltx_objects(level, objects@).filter(
            covers_range(min, max),
        ),
{
    lemma_listing_filter(level, objects@, min, max);
}

proof fn lemma_listing_filter(level: u32, objects: Seq<ListedObject>, min: u64, max: u64)
    ensures
        listing(level, objects).filter(covers_range(min, max)) == ltx_objects(
            level,
            objects,
        ).filter(covers_range(min, max)),
    decreases objects.len(),
{
    reveal(Seq::filter);
    let p = covers_range(min, max);
    let is = |o: ListedObject| listed_info(level, o) is Some;
    let info = |o: ListedObject| listed_info(level, o)->0;
    if objects.len() > 0 {
        let front = objects.drop_last();
        lemma_listing_sorted(level, front);
        lemma_listing_filter(level, front, min, max);
        match listed_info(level, objects.last()) {
            None => {
                assert(objects.filter(is) == front.filter(is));
            },
            Some(f) => {
                assert(objects.filter(is) == front.filter(is).push(objects.last()));
                assert(ltx_objects(level, objects) =~= ltx_objects(level, front).push(f));
                lemma_insert_keeps(listing(level, front), f, min, max);
                lemma_push_filtered(listing(level, front), ltx_objects(level, front), f, p);
            },
        }
    } else {
        assert(ltx_objects(level, objects) =~= Seq::empty());
    }
}

/// What an object is listed as: its level, the range in its name, its size and its age.
pub proof fn lemma_listed_file(level: u32, o: ListedObject, r: Option<(u64, u64)>, name: &str)
    requires
        name@ == o.name@,
        call_ensures(parse_ltx_filename, (name,), r),
    ensures
        listed_info(level, o) is Some <==> r is Some,
        listed_info(level, o) matches Some(f) ==> f.level == level && f.size == o.size
            && f.created_at == o.created_at && r == Some((f.min_txid, f.max_txid)),
{
}

/// An upload that finds an object is a retry where the bytes are the same, and a conflict
/// where any differ; and only a conflict is an error.
pub proof fn lemma_uploads_never_overwrite(
    bytes: &[u8],
    existing: Option<&[u8]>,
    outcome: PutOutcome,
    txid: u64,
    r: Result<(), SyncError>,
)
    requires
        call_ensures(cas_outcome, (bytes, existing), outcome),
        call_ensures(upload_result, (outcome, txid), r),
    ensures
        outcome == PutOutcome::Created <==> existing is None,
        outcome == PutOutcome::AlreadyIdentical <==> (existing matches Some(e) && (
        e@.len() == bytes@.len() && forall|i: int|
            0 <= i < e@.len() ==> #[trigger] e@[i] == bytes@[i])),
        r is Ok <==> outcome != PutOutcome::Conflict,
        r matches Err(e) ==> e == (SyncError::Equivocation { txid }),
{
    if let Some(e) = existing {
        if e@.len() == bytes@.len() && forall|i: int|
            0 <= i < e@.len() ==> #[trigger] e@[i] == bytes@[i] {
            assert(e@ =~= bytes@);
        }
    }
}

/// Two byte strings are the same where they are as long and agree everywhere.
pub proof fn lemma_same_bytes(a: &[u8], b: &[u8], r: bool)
    requires
        call_ensures(same_bytes, (a, b), r),
    ensures
        r <==> a@.len() == b@.len() && forall|i: int|
            0 <= i < a@.len() ==> #[trigger] a@[i] == b@[i],
{
    if a@.len() == b@.len() && forall|i: int| 0 <= i < a@.len() ==> #[trigger] a@[i] == b@[i] {
        assert(a@ =~= b@);
    }
}

/// Files from 16 MiB on are sent in parts.
pub proof fn lemma_large_files_are_sent_in_parts(size: u64, m: UploadMode)
    requires
        call_ensures(upload_mode, (size,), m),
    ensures
        m == UploadMode::Multipart <==> size >= 16 * 1024 * 1024,
        m == UploadMode::Guarded <==> size < 16 * 1024 * 1024,
{
}

} // verus!
