//! Applying LTX files to a database image.
//!
//! An image is the bytes of a database file: page `p` stands at offset
//! `(p - 1) * page_size`. Files are applied oldest first, each overwriting the
//! pages it carries after the image has taken on the size the file commits.

use crate::ltx::decoder::{DecodedFile, FileView, PageView, file_of, pages_view, read_file};
use crate::ltx::encoder::zeros;
use crate::ltx::error::LtxError;
use crate::ltx::format::Header;
use crate::ltx::stream::{copy_at, overwrite};
use crate::sync::error::SyncError;
use vstd::prelude::*;

verus! {

/// `img` cut or filled with zeros to `n` bytes.
pub open spec fn resized(img: Seq<u8>, n: nat) -> Seq<u8> {
    if n <= img.len() {
        img.take(n as int)
    } else {
        img + zeros((n - img.len()) as nat)
    }
}

/// The size in bytes of an image of `commit` pages.
pub open spec fn image_len(commit: u32, page_size: u32) -> nat {
    (commit * page_size) as nat
}

/// Where page `pgno` stands in an image.
pub open spec fn page_start(pgno: u32, page_size: u32) -> int {
    (pgno - 1) * page_size
}

/// The page `pgno` of an image.
pub open spec fn page_at(img: Seq<u8>, pgno: u32, page_size: u32) -> Seq<u8> {
    img.subrange(page_start(pgno, page_size), page_start(pgno, page_size) + page_size)
}

/// `img` after the first `n` of `pages` have been written into it, for a file
/// with the header `h`. A page outside `1..=commit` is an error.
pub open spec fn put_pages(img: Seq<u8>, h: Header, pages: Seq<PageView>, n: nat) -> Result<
    Seq<u8>,
    SyncError,
>
    decreases n,
{
    if n == 0 {
        Ok(img)
    } else {
        match put_pages(img, h, pages, (n - 1) as nat) {
            Err(e) => Err(e),
            Ok(i) => {
                let (pgno, data) = pages[n - 1];
                if pgno == 0 {
                    Err(SyncError::Ltx(LtxError::ZeroPageNumber))
                } else if pgno > h.commit {
                    Err(SyncError::Ltx(LtxError::PageBeyondCommit { pgno, commit: h.commit }))
                } else {
                    Ok(overwrite(i, page_start(pgno, h.page_size), data))
                }
            },
        }
    }
}

/// What applying a decoded file to `img` gives.
pub open spec fn applied_file(img: Seq<u8>, f: FileView) -> Result<Seq<u8>, SyncError> {
    if image_len(f.header.commit, f.header.page_size) > usize::MAX {
        Err(SyncError::Ltx(LtxError::ImageTooLarge { pages: f.header.commit as u64 }))
    } else {
        put_pages(
            resized(img, image_len(f.header.commit, f.header.page_size)),
            f.header,
            f.pages,
            f.pages.len(),
        )
    }
}

/// What applying the file `b` to `img` gives.
pub open spec fn applied(img: Seq<u8>, b: Seq<u8>) -> Result<Seq<u8>, SyncError> {
    match file_of(b) {
        Err(e) => Err(SyncError::Ltx(e)),
        Ok(f) => applied_file(img, f),
    }
}

/// What applying the first `n` of `files` to an empty image gives.
pub open spec fn applied_all(files: Seq<Seq<u8>>, n: nat) -> Result<Seq<u8>, SyncError>
    decreases n,
{
    if n == 0 {
        Ok(Seq::empty())
    } else {
        match applied_all(files, (n - 1) as nat) {
            Err(e) => Err(e),
            Ok(img) => applied(img, files[n - 1]),
        }
    }
}

pub proof fn lemma_page_bounds(pgno: u32, commit: u32, page_size: u32)
    requires
        1 <= pgno <= commit,
    ensures
        0 <= page_start(pgno, page_size),
        page_start(pgno, page_size) + page_size <= image_len(commit, page_size),
{
    assert(0 <= (pgno - 1) * page_size && (pgno - 1) * page_size + page_size <= commit * page_size)
        by (nonlinear_arith)
        requires
            1 <= pgno <= commit,
    ;
}

/// Distinct pages do not overlap.
proof fn lemma_pages_apart(p: u32, q: u32, page_size: u32)
    requires
        p < q,
    ensures
        page_start(p, page_size) + page_size <= page_start(q, page_size),
{
    assert((p - 1) * page_size + page_size <= (q - 1) * page_size) by (nonlinear_arith)
        requires
            p < q,
    ;
}

/// Writing a page changes that page and no other.
pub proof fn lemma_overwrite_page(
    img: Seq<u8>,
    commit: u32,
    page_size: u32,
    pgno: u32,
    data: Seq<u8>,
    q: u32,
)
    requires
        img.len() == image_len(commit, page_size),
        1 <= pgno <= commit,
        1 <= q <= commit,
        data.len() == page_size,
    ensures
        overwrite(img, page_start(pgno, page_size), data).len() == img.len(),
        page_at(overwrite(img, page_start(pgno, page_size), data), q, page_size) == if q == pgno {
            data
        } else {
            page_at(img, q, page_size)
        },
{
    lemma_page_bounds(pgno, commit, page_size);
    lemma_page_bounds(q, commit, page_size);
    let out = overwrite(img, page_start(pgno, page_size), data);
    if q == pgno {
        assert(page_at(out, q, page_size) =~= data);
    } else {
        if q < pgno {
            lemma_pages_apart(q, pgno, page_size);
        } else {
            lemma_pages_apart(pgno, q, page_size);
        }
        assert(page_at(out, q, page_size) =~= page_at(img, q, page_size));
    }
}

/// Resizing keeps the pages that both sizes hold, and the pages it adds are
/// zero.
pub proof fn lemma_resized_page(img: Seq<u8>, from: u32, to: u32, page_size: u32, q: u32)
    requires
        img.len() == image_len(from, page_size),
        1 <= q <= to,
    ensures
        resized(img, image_len(to, page_size)).len() == image_len(to, page_size),
        page_at(resized(img, image_len(to, page_size)), q, page_size) == if q <= from {
            page_at(img, q, page_size)
        } else {
            zeros(page_size as nat)
        },
{
    let out = resized(img, image_len(to, page_size));
    lemma_page_bounds(q, to, page_size);
    if q <= from {
        lemma_page_bounds(q, from, page_size);
        assert(page_at(out, q, page_size) =~= page_at(img, q, page_size));
    } else {
        assert(image_len(from, page_size) <= page_start(q, page_size)) by (nonlinear_arith)
            requires
                from < q,
                image_len(from, page_size) == from * page_size,
                page_start(q, page_size) == (q - 1) * page_size,
        ;
        assert(page_at(out, q, page_size) =~= zeros(page_size as nat));
    }
}

/// Two images of the same size are equal if their pages are.
pub proof fn lemma_images_equal(a: Seq<u8>, b: Seq<u8>, commit: u32, page_size: u32)
    requires
        page_size > 0,
        a.len() == image_len(commit, page_size),
        b.len() == image_len(commit, page_size),
        forall|p: u32|
            1 <= p <= commit ==> #[trigger] page_at(a, p, page_size) == page_at(b, p, page_size),
    ensures
        a == b,
{
    assert forall|i: int| 0 <= i < a.len() implies a[i] == b[i] by {
        let ps = page_size as int;
        let k = i / ps;
        assert(0 <= k < commit && k * ps <= i < k * ps + ps) by (nonlinear_arith)
            requires
                0 <= i < commit * ps,
                ps > 0,
                k == i / ps,
        ;
        let p = (k + 1) as u32;
        lemma_page_bounds(p, commit, page_size);
        assert(page_start(p, page_size) == k * ps);
        assert(page_at(a, p, page_size) == page_at(b, p, page_size));
        assert(page_at(a, p, page_size)[i - k * ps] == a[i]);
        assert(page_at(b, p, page_size)[i - k * ps] == b[i]);
    }
    assert(a =~= b);
}

proof fn lemma_put_error(img: Seq<u8>, h: Header, pages: Seq<PageView>, i: nat, n: nat)
    requires
        i <= n,
        put_pages(img, h, pages, i) is Err,
    ensures
        put_pages(img, h, pages, n) == put_pages(img, h, pages, i),
    decreases n - i,
{
    if i < n {
        lemma_put_error(img, h, pages, i, (n - 1) as nat);
    }
}

proof fn lemma_applied_error(files: Seq<Seq<u8>>, i: nat, n: nat)
    requires
        i <= n,
        applied_all(files, i) is Err,
    ensures
        applied_all(files, n) == applied_all(files, i),
    decreases n - i,
{
    if i < n {
        lemma_applied_error(files, i, (n - 1) as nat);
    }
}

/// Cuts or fills an image to `n` bytes.
fn resize(img: &mut Vec<u8>, n: usize)
    ensures
        final(img)@ == resized(old(img)@, n as nat),
{
    let ghost before = img@;
    img.resize(n, 0);
    proof {
        if n > before.len() {
            assert(img@.subrange(0, before.len() as int) == before);
            assert forall|i: int| 0 <= i < n implies img@[i] == resized(before, n as nat)[i] by {
                if i < before.len() {
                    assert(img@.subrange(0, before.len() as int)[i] == img@[i]);
                } else {
                    assert(cloned::<u8>(0u8, img@[i]));
                }
            }
        }
        assert(img@ =~= resized(before, n as nat));
    }
}

/// Applies one LTX file to a database image.
pub fn apply_file(image: Vec<u8>, bytes: &[u8]) -> (r: Result<Vec<u8>, SyncError>)
    ensures
        match (r, applied(image@, bytes@)) {
            (Ok(i), Ok(s)) => i@ == s,
            (Err(e), Err(se)) => e == se,
            _ => false,
        },
{
    let file = match read_file(bytes) {
        Ok(f) => f,
        Err(e) => return Err(SyncError::Ltx(e)),
    };
    let h = file.header;
    proof {
        assert(file@ == file_of(bytes@)->Ok_0);
        assert(0 <= h.commit * h.page_size <= 0xFFFF_FFFF * 65536) by (nonlinear_arith)
            requires
                h.page_size <= 65536,
        ;
    }
    let total: u64 = h.commit as u64 * h.page_size as u64;
    if total > usize::MAX as u64 {
        return Err(SyncError::Ltx(LtxError::ImageTooLarge { pages: h.commit as u64 }));
    }
    let mut img = image;
    resize(&mut img, total as usize);
    let ghost sized = img@;
    let ghost pages = file@.pages;
    let mut i: usize = 0;
    while i < file.pages.len()
        invariant
            i <= file.pages@.len(),
            h == file.header,
            pages == file@.pages,
            total == h.commit * h.page_size,
            total <= usize::MAX,
            img@.len() == total,
            applied(image@, bytes@) == put_pages(sized, h, pages, pages.len()),
            forall|k: int|
                0 <= k < file.pages@.len() ==> (#[trigger] file.pages@[k]).1@.len() == h.page_size,
            put_pages(sized, h, pages, i as nat) == Ok::<Seq<u8>, SyncError>(img@),
        decreases file.pages@.len() - i,
    {
        let pgno: u32 = file.pages[i].0;
        assert(pages[i as int] == (file.pages@[i as int].0, file.pages@[i as int].1@));
        if pgno == 0 {
            proof {
                lemma_put_error(sized, h, pages, (i + 1) as nat, pages.len());
            }
            return Err(SyncError::Ltx(LtxError::ZeroPageNumber));
        }
        if pgno > h.commit {
            proof {
                lemma_put_error(sized, h, pages, (i + 1) as nat, pages.len());
            }
            return Err(SyncError::Ltx(LtxError::PageBeyondCommit { pgno, commit: h.commit }));
        }
        proof {
            lemma_page_bounds(pgno, h.commit, h.page_size);
        }
        let start: usize = (pgno - 1) as usize * h.page_size as usize;
        copy_at(&mut img, start, &file.pages[i].1);
        i += 1;
    }
    Ok(img)
}

/// The contents of a list of buffers.
pub open spec fn contents(files: Seq<&[u8]>) -> Seq<Seq<u8>> {
    files.map_values(|b: &[u8]| b@)
}

/// Applies the files of a plan, in TXID order, into a database image.
pub fn apply_plan(files: &[&[u8]]) -> (r: Result<Vec<u8>, SyncError>)
    ensures
        match (r, applied_all(contents(files@), files@.len())) {
            (Ok(i), Ok(s)) => i@ == s,
            (Err(e), Err(se)) => e == se,
            _ => false,
        },
{
    let mut img: Vec<u8> = Vec::new();
    let mut i: usize = 0;
    let ghost all = contents(files@);
    while i < files.len()
        invariant
            i <= files@.len(),
            all == contents(files@),
            applied_all(all, i as nat) == Ok::<Seq<u8>, SyncError>(img@),
        decreases files@.len() - i,
    {
        assert(all[i as int] == files@[i as int]@);
        img = match apply_file(img, files[i]) {
            Ok(next) => next,
            Err(e) => {
                proof {
                    lemma_applied_error(all, (i + 1) as nat, files@.len());
                }
                return Err(e);
            },
        };
        i += 1;
    }
    Ok(img)
}

/// The byte at `i` of an image lies in the page `pgno`.
pub open spec fn lies_in(i: int, pgno: u32, page_size: u32) -> bool {
    (pgno - 1) * page_size <= i < pgno * page_size
}

proof fn lemma_put_within(img: Seq<u8>, h: Header, pages: Seq<PageView>, n: nat)
    requires
        n <= pages.len(),
        img.len() == image_len(h.commit, h.page_size),
        forall|k: int| 0 <= k < pages.len() ==> (#[trigger] pages[k]).1.len() == h.page_size,
    ensures
        put_pages(img, h, pages, n) is Ok <==> forall|k: int|
            0 <= k < n ==> 1 <= (#[trigger] pages[k]).0 <= h.commit,
        put_pages(img, h, pages, n) matches Ok(out) ==> out.len() == img.len(),
    decreases n,
{
    if n > 0 {
        lemma_put_within(img, h, pages, (n - 1) as nat);
        let (pgno, data) = pages[n - 1];
        if put_pages(img, h, pages, (n - 1) as nat) is Ok && 1 <= pgno <= h.commit {
            lemma_overwrite_page(
                put_pages(img, h, pages, (n - 1) as nat)->Ok_0,
                h.commit,
                h.page_size,
                pgno,
                data,
                pgno,
            );
        }
    }
}

proof fn lemma_put_leaves(img: Seq<u8>, h: Header, pages: Seq<PageView>, n: nat, i: int)
    requires
        n <= pages.len(),
        img.len() == image_len(h.commit, h.page_size),
        forall|k: int| 0 <= k < pages.len() ==> (#[trigger] pages[k]).1.len() == h.page_size,
        put_pages(img, h, pages, n) is Ok,
        0 <= i < img.len(),
        forall|k: int| 0 <= k < n ==> !lies_in(i, (#[trigger] pages[k]).0, h.page_size),
    ensures
        put_pages(img, h, pages, n)->Ok_0[i] == img[i],
    decreases n,
{
    if n > 0 {
        lemma_put_within(img, h, pages, (n - 1) as nat);
        lemma_put_leaves(img, h, pages, (n - 1) as nat, i);
        let (pgno, data) = pages[n - 1];
        assert(!lies_in(i, pages[n - 1].0, h.page_size));
        lemma_page_bounds(pgno, h.commit, h.page_size);
        assert(pgno * h.page_size == (pgno - 1) * h.page_size + h.page_size) by (nonlinear_arith);
    }
}

proof fn lemma_put_writes(img: Seq<u8>, h: Header, pages: Seq<PageView>, n: nat, k: int)
    requires
        n <= pages.len(),
        img.len() == image_len(h.commit, h.page_size),
        forall|j: int| 0 <= j < pages.len() ==> (#[trigger] pages[j]).1.len() == h.page_size,
        put_pages(img, h, pages, n) is Ok,
        0 <= k < n,
        forall|j: int| k < j < n ==> (#[trigger] pages[j]).0 != pages[k].0,
    ensures
        page_at(put_pages(img, h, pages, n)->Ok_0, pages[k].0, h.page_size) == pages[k].1,
    decreases n,
{
    lemma_put_within(img, h, pages, n);
    lemma_put_within(img, h, pages, (n - 1) as nat);
    let before = put_pages(img, h, pages, (n - 1) as nat)->Ok_0;
    let (pgno, data) = pages[n - 1];
    assert(1 <= pages[k].0 <= h.commit);
    lemma_overwrite_page(before, h.commit, h.page_size, pgno, data, pages[k].0);
    if k < n - 1 {
        lemma_put_writes(img, h, pages, (n - 1) as nat, k);
        assert(pages[n - 1].0 != pages[k].0);
    }
}

/// Applying a file gives an image of the size that it commits. Each page that it carries is
/// there as it carries it, for the last time where it does so twice; every other byte is as
/// it was, or zero where the image did not reach. It fails only where the file cannot be
/// read, carries a page outside that size, or the image would not fit in memory.
#[verifier::rlimit(30)]
pub proof fn lemma_file_is_applied(
    image: Vec<u8>,
    bytes: &[u8],
    file: Result<DecodedFile, LtxError>,
    r: Result<Vec<u8>, SyncError>,
)
    requires
        call_ensures(read_file, (bytes,), file),
        call_ensures(apply_file, (image, bytes), r),
    ensures
        file matches Err(e) ==> r == Err::<Vec<u8>, SyncError>(SyncError::Ltx(e)),
        file matches Ok(f) ==> {
            let size = f.header.commit * f.header.page_size;
            let pages = pages_view(f.pages@);
            &&& r is Ok <==> size <= usize::MAX && forall|k: int|
                0 <= k < pages.len() ==> 1 <= (#[trigger] pages[k]).0 <= f.header.commit
            &&& r matches Ok(out) ==> {
                &&& out@.len() == size
                &&& forall|k: int|
                    0 <= k < pages.len() && (forall|j: int|
                        k < j < pages.len() ==> (#[trigger] pages[j]).0 != pages[k].0)
                        ==> out@.subrange(
                        ((#[trigger] pages[k]).0 - 1) * f.header.page_size,
                        (pages[k].0 - 1) * f.header.page_size + f.header.page_size,
                    ) == pages[k].1
                &&& forall|i: int|
                    0 <= i < size && (forall|k: int|
                        0 <= k < pages.len() ==> !lies_in(
                            i,
                            (#[trigger] pages[k]).0,
                            f.header.page_size,
                        )) ==> #[trigger] out@[i] == (if i < image@.len() {
                        image@[i]
                    } else {
                        0
                    })
            }
        },
{
    if let Ok(f) = file {
        let h = f.header;
        let pages = pages_view(f.pages@);
        let n = pages.len();
        assert(f@ == file_of(bytes@)->Ok_0);
        assert(h.commit * h.page_size >= 0) by (nonlinear_arith);
        let sized = resized(image@, image_len(h.commit, h.page_size));
        assert forall|k: int| 0 <= k < pages.len() implies (#[trigger] pages[k]).1.len()
            == h.page_size by {
            assert(f.pages@[k].1@.len() == h.page_size);
        }
        lemma_put_within(sized, h, pages, n);
        if let Ok(out) = r {
            assert forall|k: int|
                0 <= k < pages.len() && (forall|j: int|
                    k < j < pages.len() ==> (#[trigger] pages[j]).0 != pages[k].0)
                implies out@.subrange(
                ((#[trigger] pages[k]).0 - 1) * h.page_size,
                (pages[k].0 - 1) * h.page_size + h.page_size,
            ) == pages[k].1 by {
                lemma_put_writes(sized, h, pages, n, k);
            }
            assert forall|i: int|
                0 <= i < h.commit * h.page_size && (forall|k: int|
                    0 <= k < pages.len() ==> !lies_in(i, (#[trigger] pages[k]).0, h.page_size))
                implies #[trigger] out@[i] == (if i < image@.len() {
                image@[i]
            } else {
                0
            }) by {
                lemma_put_leaves(sized, h, pages, n, i);
            }
        }
    }
}

/// A plan is applied file by file to an empty image.
pub proof fn lemma_plan_is_applied_in_order(
    files: &[&[u8]],
    front: &[&[u8]],
    last: &[u8],
    before: Result<Vec<u8>, SyncError>,
    after: Result<Vec<u8>, SyncError>,
    r: Result<Vec<u8>, SyncError>,
)
    requires
        files@ == front@.push(last),
        call_ensures(apply_plan, (front,), before),
        before matches Ok(image) ==> call_ensures(apply_file, (image, last), after),
        call_ensures(apply_plan, (files,), r),
    ensures
        before matches Err(e) ==> r == Err::<Vec<u8>, SyncError>(e),
        before is Ok ==> match (r, after) {
            (Ok(a), Ok(b)) => a@ == b@,
            (Err(a), Err(b)) => a == b,
            _ => false,
        },
        front@.len() == 0 ==> (before matches Ok(image) && image@.len() == 0),
{
    let n = front@.len();
    assert(contents(files@)[n as int] == last@);
    lemma_applied_prefix(contents(files@), contents(front@), n);
}

proof fn lemma_applied_prefix(long: Seq<Seq<u8>>, short: Seq<Seq<u8>>, n: nat)
    requires
        n <= short.len() <= long.len(),
        forall|i: int| 0 <= i < short.len() ==> #[trigger] short[i] == long[i],
    ensures
        applied_all(long, n) == applied_all(short, n),
    decreases n,
{
    if n > 0 {
        lemma_applied_prefix(long, short, (n - 1) as nat);
        assert(short[n - 1] == long[n - 1]);
    }
}

} // verus!
