//! Where the files beside a database live. Paths are byte strings, as the
//! operating system has them.

use crate::storage::{ltx_filename, ltx_name};
use crate::text::{chars_of, hex_padded, push_hex_padded};
use vstd::prelude::*;

verus! {

/// The bytes of ASCII text.
pub open spec fn ascii(s: Seq<char>) -> Seq<u8> {
    s.map_values(|c: char| c as u8)
}

/// `path` followed by ASCII text.
pub open spec fn joined(path: Seq<u8>, text: Seq<char>) -> Seq<u8> {
    path + ascii(text)
}

fn append(path: &[u8], text: &str) -> (out: Vec<u8>)
    ensures
        out@ == joined(path@, text@),
{
    let mut out: Vec<u8> = Vec::new();
    out.extend_from_slice(path);
    assert(out@ =~= path@);
    let cs = chars_of(text);
    let mut i: usize = 0;
    while i < cs.len()
        invariant
            i <= cs@.len(),
            cs@ == text@,
            out@ =~= path@ + ascii(text@.take(i as int)),
        decreases cs@.len() - i,
    {
        out.push(cs[i] as u8);
        assert(ascii(text@.take(i + 1)) =~= ascii(text@.take(i as int)).push(
            text@[i as int] as u8,
        ));
        i += 1;
    }
    assert(text@.take(i as int) =~= text@);
    out
}

/// `path` with `suffix` appended to its file name (e.g. `x.ltx` → `x.ltx.tmp`).
pub fn with_extension_suffix(path: &[u8], suffix: &str) -> (out: Vec<u8>)
    ensures
        out@ == joined(path@, suffix@),
{
    append(path, suffix)
}

/// The WAL of the database at `db`: `<db>-wal`.
pub fn wal_path(db: &[u8]) -> (out: Vec<u8>)
    ensures
        out@ == joined(db@, "-wal"@),
{
    append(db, "-wal")
}

/// The directory of files beside the database at `db`: `<db>-litestream`.
pub fn litestream_dir(db: &[u8]) -> (out: Vec<u8>)
    ensures
        out@ == joined(db@, "-litestream"@),
{
    append(db, "-litestream")
}

/// Where files are staged before upload: `<db>-litestream/ltx`.
pub fn staging_root(db: &[u8]) -> (out: Vec<u8>)
    ensures
        out@ == joined(joined(db@, "-litestream"@), "/ltx"@),
{
    append(&litestream_dir(db), "/ltx")
}

/// The position marker: `<db>-litestream/RESTORED`, a sibling of the staging and
/// compaction directories and inside neither.
pub fn marker_path(db: &[u8]) -> (out: Vec<u8>)
    ensures
        out@ == joined(joined(db@, "-litestream"@), "/RESTORED"@),
{
    append(&litestream_dir(db), "/RESTORED")
}

/// The path of a staged file below the staging root:
/// `/<level>/<min>-<max>.ltx`.
pub open spec fn staged_suffix(level: u32, min: u64, max: u64) -> Seq<char> {
    seq!['/'] + hex_padded(level as nat, 4) + seq!['/'] + ltx_name(min, max)
}

/// Where the file of `(level, min, max)` is staged.
pub fn staged_ltx_path(db: &[u8], level: u32, min: u64, max: u64) -> (out: Vec<u8>)
    ensures
        out@ == joined(
            joined(joined(db@, "-litestream"@), "/ltx"@),
            staged_suffix(level, min, max),
        ),
{
    let mut s = String::new();
    s.push('/');
    push_hex_padded(&mut s, level as u64, 4);
    s.push('/');
    s.push_str(ltx_filename(min, max).as_str());
    assert(s@ =~= staged_suffix(level, min, max));
    append(&staging_root(db), s.as_str())
}

/// The path of a compaction's scratch file below `<db>-litestream`.
pub open spec fn scratch_suffix(level: u32, min: u64, max: u64) -> Seq<char> {
    "/compact/"@ + hex_padded(level as nat, 4) + seq!['-'] + ltx_name(min, max)
}

/// A scratch path for a compaction or snapshot merge output, outside the staging
/// directory, so that recovery never mistakes it for a staged file.
pub fn compaction_temp(db: &[u8], level: u32, min: u64, max: u64) -> (out: Vec<u8>)
    ensures
        out@ == joined(joined(db@, "-litestream"@), scratch_suffix(level, min, max)),
{
    let mut s = String::new();
    s.push_str("/compact/");
    push_hex_padded(&mut s, level as u64, 4);
    s.push('-');
    s.push_str(ltx_filename(min, max).as_str());
    assert(s@ =~= scratch_suffix(level, min, max));
    append(&litestream_dir(db), s.as_str())
}

/// The files beside a database: each path is that of the database and a fixed ending.
pub proof fn lemma_paths_beside(
    db: &[u8],
    wal: Vec<u8>,
    dir: Vec<u8>,
    staging: Vec<u8>,
    marker: Vec<u8>,
)
    requires
        call_ensures(wal_path, (db,), wal),
        call_ensures(litestream_dir, (db,), dir),
        call_ensures(staging_root, (db,), staging),
        call_ensures(marker_path, (db,), marker),
    ensures
        wal@ == db@ + seq![45u8, 119, 97, 108],
        dir@ == db@ + seq![45u8, 108, 105, 116, 101, 115, 116, 114, 101, 97, 109],
        staging@ == dir@ + seq![47u8, 108, 116, 120],
        marker@ == dir@ + seq![47u8, 82, 69, 83, 84, 79, 82, 69, 68],
{
    reveal_strlit("-wal");
    reveal_strlit("-litestream");
    reveal_strlit("/ltx");
    reveal_strlit("/RESTORED");
    assert(ascii("-wal"@) =~= seq![45u8, 119, 97, 108]);
    assert(ascii("-litestream"@) =~= seq![45u8, 108, 105, 116, 101, 115, 116, 114, 101, 97, 109]);
    assert(ascii("/ltx"@) =~= seq![47u8, 108, 116, 120]);
    assert(ascii("/RESTORED"@) =~= seq![47u8, 82, 69, 83, 84, 79, 82, 69, 68]);
}

/// A staged file stands in the staging directory under its level and its name; the scratch
/// file of a compaction stands outside the staging directory.
pub proof fn lemma_staged_and_scratch(
    db: &[u8],
    level: u32,
    min: u64,
    max: u64,
    staging: Vec<u8>,
    dir: Vec<u8>,
    name: String,
    staged: Vec<u8>,
    scratch: Vec<u8>,
)
    requires
        call_ensures(staging_root, (db,), staging),
        call_ensures(litestream_dir, (db,), dir),
        call_ensures(ltx_filename, (min, max), name),
        call_ensures(staged_ltx_path, (db, level, min, max), staged),
        call_ensures(compaction_temp, (db, level, min, max), scratch),
    ensures
        ({
            let digits = ascii(hex_padded(level as nat, 4));
            let end = Seq::new(name@.len(), |i: int| name@[i] as u8);
            &&& staged@ == staging@ + seq![47u8] + digits + seq![47u8] + end
            &&& scratch@ == dir@ + seq![47u8, 99, 111, 109, 112, 97, 99, 116, 47] + digits + seq![
                45u8,
            ] + end
        }),
        !(staging@.len() <= scratch@.len() && scratch@.take(staging@.len() as int) == staging@),
{
    reveal_strlit("/compact/");
    reveal_strlit("/ltx");
    let d = hex_padded(level as nat, 4);
    let digits = ascii(d);
    let end = Seq::new(name@.len(), |i: int| name@[i] as u8);
    assert(end =~= ascii(name@));
    assert(ascii(staged_suffix(level, min, max)) =~= seq![47u8] + digits + seq![47u8] + end);
    assert(staged@ =~= staging@ + seq![47u8] + digits + seq![47u8] + end);
    let c = seq![47u8, 99, 111, 109, 112, 97, 99, 116, 47];
    assert(ascii("/compact/"@) =~= c);
    assert(ascii(scratch_suffix(level, min, max)) =~= c + digits + seq![45u8] + end);
    assert(scratch@ =~= dir@ + c + digits + seq![45u8] + end);
    assert(ascii("/ltx"@) =~= seq![47u8, 108, 116, 120]);
    let at = (dir@.len() + 1) as int;
    assert(staging@[at] == 108u8);
    assert(scratch@[at] == 99u8);
    if staging@.len() <= scratch@.len() && scratch@.take(staging@.len() as int) == staging@ {
        assert(scratch@.take(staging@.len() as int)[at] == scratch@[at]);
    }
}

/// A suffix is appended, and nothing else is changed.
pub proof fn lemma_suffix_is_appended(path: &[u8], suffix: &str, out: Vec<u8>)
    requires
        call_ensures(with_extension_suffix, (path, suffix), out),
    ensures
        out@.len() == path@.len() + suffix@.len(),
        forall|i: int| 0 <= i < path@.len() ==> #[trigger] out@[i] == path@[i],
        forall|i: int|
            0 <= i < suffix@.len() ==> out@[path@.len() + i] == #[trigger] suffix@[i] as u8,
{
}

} // verus!
