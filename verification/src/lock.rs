//! The host-local single-writer lock: where its file is, and what the attempt
//! to take it means.

use vstd::prelude::*;

verus! {

/// Errors taking the lock.
#[derive(Debug)]
pub enum LockError {
    /// An I/O failure, in its own words.
    Io(String),
    /// Another process already holds the lock at this path.
    Held(String),
}

impl LockError {
    /// The text of the error.
    pub open spec fn text(self) -> Seq<char> {
        match self {
            LockError::Io(e) => "lock io: "@ + e@,
            LockError::Held(p) => "another literstream process already holds "@ + p@
                + ": single writer per database"@,
        }
    }

    /// The text of the error, for people.
    pub fn message(&self) -> (s: String)
        ensures
            s@ == self.text(),
    {
        let mut s = String::new();
        match self {
            LockError::Io(e) => {
                s.push_str("lock io: ");
                s.push_str(e.as_str());
            },
            LockError::Held(p) => {
                s.push_str("another literstream process already holds ");
                s.push_str(p.as_str());
                s.push_str(": single writer per database");
            },
        }
        assert(s@ =~= self.text());
        s
    }
}

/// What an attempt to take the lock gave.
#[derive(Clone, Copy, Debug, PartialEq, Eq, Structural)]
pub enum LockAttempt {
    Acquired,
    /// Another process holds it.
    Held,
    /// The call failed otherwise.
    Failed,
}

/// What a non-blocking lock call means, from its return code and the error
/// number it left: an error number that says "would block" means that another
/// process holds the lock.
pub fn lock_attempt(rc: i32, errno: Option<i32>, would_block: i32, again: i32) -> (r: LockAttempt)
    ensures
        r == (if rc == 0 {
            LockAttempt::Acquired
        } else if errno == Some(would_block) || errno == Some(again) {
            LockAttempt::Held
        } else {
            LockAttempt::Failed
        }),
{
    if rc == 0 {
        return LockAttempt::Acquired;
    }
    match errno {
        Some(code) => {
            if code == would_block || code == again {
                LockAttempt::Held
            } else {
                LockAttempt::Failed
            }
        },
        None => LockAttempt::Failed,
    }
}

/// The name of the lock file of the database file `name`.
pub open spec fn lock_name(name: Seq<char>) -> Seq<char> {
    seq!['.'] + name + ".literstream.lock"@
}

/// The name of the lock file beside a database file; `name` is the file name of
/// the database, where its path has one.
pub fn lock_file_name(name: Option<&str>) -> (s: String)
    ensures
        s@ == lock_name(
            match name {
                Some(n) => n@,
                None => "db"@,
            },
        ),
{
    let mut s = String::new();
    s.push('.');
    match name {
        Some(n) => s.push_str(n),
        None => s.push_str("db"),
    }
    s.push_str(".literstream.lock");
    assert(s@ =~= lock_name(
        match name {
            Some(n) => n@,
            None => "db"@,
        },
    ));
    s
}

/// The lock is taken where the call returns zero, and held by another where it fails and
/// leaves one of the two error numbers that say so.
pub proof fn lemma_lock_attempt(
    rc: i32,
    errno: Option<i32>,
    would_block: i32,
    again: i32,
    r: LockAttempt,
)
    requires
        call_ensures(lock_attempt, (rc, errno, would_block, again), r),
    ensures
        r == LockAttempt::Acquired <==> rc == 0,
        r == LockAttempt::Held <==> rc != 0 && (errno matches Some(e) && (e == would_block || e
            == again)),
{
}

/// The lock file is hidden, and named after the database file, or after `db` where the path
/// has no file name. Databases of different names have different lock files.
pub proof fn lemma_lock_file(name: &str, other: &str, s: String, o: String, none: String)
    requires
        call_ensures(lock_file_name, (Some(name),), s),
        call_ensures(lock_file_name, (Some(other),), o),
        call_ensures(lock_file_name, (None,), none),
    ensures
        s@.len() == name@.len() + 18,
        s@[0] == '.',
        s@.subrange(1, (1 + name@.len()) as int) == name@,
        s@.skip((1 + name@.len()) as int) == ".literstream.lock"@,
        name@ != other@ ==> s@ != o@,
        name@ == "db"@ ==> s@ == none@,
{
    reveal_strlit(".literstream.lock");
    assert(s@.subrange(1, (1 + name@.len()) as int) =~= name@);
    assert(o@.subrange(1, (1 + other@.len()) as int) =~= other@);
    assert(s@.skip((1 + name@.len()) as int) =~= ".literstream.lock"@);
    if s@ == o@ {
        assert(name@.len() == other@.len());
    }
}

} // verus!
